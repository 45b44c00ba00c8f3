//! Which instances become cells, and in what order; and the outline of the rows that decides about
//! fixed ones.

use vstd::prelude::*;
use crate::grid::{increasing, insert_boundary};
use crate::regions::Box4;
use crate::sort::{ascending, sorted_in, ByName};
use crate::text::same_text;

verus! {

/// The rows' outline: the union of their boxes, with the holes that rows surround filled in.
#[derive(Debug)]
pub struct OuterShell {
    pub xs: Vec<i32>,
    pub ys: Vec<i32>,
    /// `[j][i]`: the cell `xs[i]..xs[i+1]` by `ys[j]..ys[j+1]` is inside the outline.
    pub inside: Vec<Vec<bool>>,
}

/// Whether some row covers a point.
pub open spec fn row_covers(rows: Seq<Box4>, cx: int, cy: int) -> bool {
    exists|k: int| 0 <= k < rows.len() && ({
        let r = #[trigger] rows[k];
        r.0 <= cx < r.2 && r.1 <= cy < r.3
    })
}

/// The cells between the rows' edges.
pub struct Cells {
    pub rows: Seq<Box4>,
    pub xs: Seq<i32>,
    pub ys: Seq<i32>,
}

impl Cells {
    /// Whether `(i, j)` is a cell.
    pub open spec fn has(self, i: int, j: int) -> bool {
        0 <= i < self.xs.len() - 1 && 0 <= j < self.ys.len() - 1
    }

    /// Whether a row covers a cell.
    pub open spec fn full(self, i: int, j: int) -> bool {
        row_covers(self.rows, self.xs[i] as int, self.ys[j] as int)
    }

    /// Whether `(i, j)` is a cell that no row covers.
    pub open spec fn void(self, i: int, j: int) -> bool {
        self.has(i, j) && !self.full(i, j)
    }

    /// Whether a cell lies on the edge of the rows' bounding box.
    pub open spec fn on_rim(self, i: int, j: int) -> bool {
        i == 0 || j == 0 || i == self.xs.len() - 2 || j == self.ys.len() - 2
    }

    /// A way out: void cells, each sharing an edge with the next, the last on the rim.
    pub open spec fn way_out(self, p: Seq<(int, int)>) -> bool {
        &&& p.len() > 0
        &&& forall|k: int| 0 <= k < p.len() ==> self.void((#[trigger] p[k]).0, p[k].1)
        &&& forall|k: int| 0 <= k < p.len() - 1 ==> next_to(#[trigger] p[k], p[k + 1])
        &&& self.on_rim(p.last().0, p.last().1)
    }

    /// Whether a void cell has a way out.
    pub open spec fn escapes(self, i: int, j: int) -> bool {
        exists|p: Seq<(int, int)>| #[trigger] self.way_out(p) && p[0] == (i, j)
    }
}

/// Two cells that share an edge.
pub open spec fn next_to(a: (int, int), b: (int, int)) -> bool {
    ||| a.1 == b.1 && (a.0 == b.0 + 1 || b.0 == a.0 + 1)
    ||| a.0 == b.0 && (a.1 == b.1 + 1 || b.1 == a.1 + 1)
}

/// How many entries of a row are not set.
spec fn unset_in_row(s: Seq<bool>) -> nat
    decreases s.len(),
{
    if s.len() == 0 { 0 } else { unset_in_row(s.drop_last()) + (if s.last() { 0nat } else { 1nat }) }
}

/// How many entries of a table are not set.
spec fn unset(s: Seq<Vec<bool>>) -> nat
    decreases s.len(),
{
    if s.len() == 0 { 0 } else { unset(s.drop_last()) + unset_in_row(s.last()@) }
}

proof fn lemma_unset_in_row(s: Seq<bool>, i: int)
    requires
        0 <= i < s.len(),
        !s[i],
    ensures
        unset_in_row(s.update(i, true)) + 1 == unset_in_row(s),
    decreases s.len(),
{
    let t = s.update(i, true);
    if i == s.len() - 1 {
        assert(t.drop_last() =~= s.drop_last());
    } else {
        lemma_unset_in_row(s.drop_last(), i);
        assert(t.drop_last() =~= s.drop_last().update(i, true));
    }
}

proof fn lemma_unset(s: Seq<Vec<bool>>, t: Seq<Vec<bool>>, i: int, j: int)
    requires
        s.len() == t.len(),
        0 <= j < s.len(),
        0 <= i < s[j]@.len(),
        !s[j]@[i],
        t[j]@ == s[j]@.update(i, true),
        forall|k: int| 0 <= k < s.len() && k != j ==> t[k] == s[k],
    ensures
        unset(t) + 1 == unset(s),
    decreases s.len(),
{
    if j == s.len() - 1 {
        assert(t.drop_last() =~= s.drop_last());
        lemma_unset_in_row(s[j]@, i);
    } else {
        lemma_unset(s.drop_last(), t.drop_last(), i, j);
    }
}

/// A table of flags has one entry per cell.
spec fn table_fits(c: Cells, m: Seq<Vec<bool>>) -> bool {
    &&& m.len() == c.ys.len() - 1
    &&& forall|j: int| 0 <= j < m.len() ==> (#[trigger] m[j])@.len() == c.xs.len() - 1
}

spec fn on_stack(stack: Seq<(usize, usize)>, i: int, j: int) -> bool {
    exists|k: int| 0 <= k < stack.len() && (#[trigger] stack[k]).0 == i && stack[k].1 == j
}

/// What holds while the void is flooded from the rim: every marked cell has a way out, and every
/// void neighbour of a marked cell is marked unless the cell still waits on the stack or is `now`.
spec fn flooding(c: Cells, cov: Seq<Vec<bool>>, m: Seq<Vec<bool>>, stack: Seq<(usize, usize)>, now: (int, int)) -> bool {
    &&& table_fits(c, cov)
    &&& table_fits(c, m)
    &&& forall|i: int, j: int| c.has(i, j) ==> #[trigger] cov[j]@[i] == c.full(i, j)
    &&& forall|i: int, j: int| c.has(i, j) && #[trigger] m[j]@[i] ==> c.void(i, j) && c.escapes(i, j)
    &&& forall|k: int| 0 <= k < stack.len() ==> c.has((#[trigger] stack[k]).0 as int, stack[k].1 as int) && m[stack[k].1 as int]@[stack[k].0 as int]
    &&& forall|i: int, j: int, a: int, b: int| #![trigger m[j]@[i], m[b]@[a]]
        c.has(i, j) && m[j]@[i] && !on_stack(stack, i, j) && (i, j) != now && c.void(a, b) && next_to((i, j), (a, b)) ==> m[b]@[a]
}

/// Mark a void cell that lies on the rim or next to a marked one, and put it on the stack.
fn mark_cell(cov: &Vec<Vec<bool>>, m: &mut Vec<Vec<bool>>, stack: &mut Vec<(usize, usize)>, a: usize, b: usize, Ghost(c): Ghost<Cells>, Ghost(now): Ghost<(int, int)>)
    requires
        flooding(c, cov@, old(m)@, old(stack)@, now),
        c.has(a as int, b as int),
        c.on_rim(a as int, b as int) || (c.has(now.0, now.1) && old(m)@[now.1]@[now.0] && next_to((a as int, b as int), now)),
    ensures
        flooding(c, cov@, final(m)@, final(stack)@, now),
        c.void(a as int, b as int) ==> final(m)@[b as int]@[a as int],
        forall|i: int, j: int| #![trigger old(m)@[j]@[i]] #![trigger final(m)@[j]@[i]] c.has(i, j) && old(m)@[j]@[i] ==> final(m)@[j]@[i],
        unset(final(m)@) < unset(old(m)@) || (unset(final(m)@) == unset(old(m)@) && final(stack)@ == old(stack)@),
{
    assert(cov@[b as int]@[a as int] == c.full(a as int, b as int));
    if cov[b][a] || m[b][a] {
        return;
    }
    let ghost m0 = m@;
    let ghost s0 = stack@;
    proof {
        if c.on_rim(a as int, b as int) {
            let p = seq![(a as int, b as int)];
            assert(c.way_out(p));
        } else {
            assert(m0[now.1]@[now.0]);
            let q = choose|q: Seq<(int, int)>| #[trigger] c.way_out(q) && q[0] == now;
            let p = seq![(a as int, b as int)] + q;
            assert forall|k: int| 0 <= k < p.len() implies c.void((#[trigger] p[k]).0, p[k].1) by {
                if k > 0 { assert(p[k] == q[k - 1]); }
            }
            assert forall|k: int| 0 <= k < p.len() - 1 implies next_to(#[trigger] p[k], p[k + 1]) by {
                if k > 0 { assert(p[k] == q[k - 1] && p[k + 1] == q[k]); } else { assert(p[1] == q[0]); }
            }
            assert(p.last() == q.last());
            assert(c.way_out(p) && p[0] == (a as int, b as int));
        }
        assert(c.escapes(a as int, b as int));
    }
    m[b][a] = true;
    stack.push((a, b));
    proof {
        lemma_unset(m0, m@, a as int, b as int);
        assert(stack@[s0.len() as int] == (a, b));
        assert forall|i: int, j: int| c.has(i, j) implies #[trigger] m@[j]@[i] == (m0[j]@[i] || (i == a && j == b)) by {}
        assert forall|i: int, j: int| c.has(i, j) && on_stack(s0, i, j) implies on_stack(stack@, i, j) by {
            let k = choose|k: int| 0 <= k < s0.len() && (#[trigger] s0[k]).0 == i && s0[k].1 == j;
            assert(stack@[k] == s0[k]);
        }
        assert forall|i: int, j: int, d: int, e: int| #![trigger m@[j]@[i], m@[e]@[d]]
            c.has(i, j) && m@[j]@[i] && !on_stack(stack@, i, j) && (i, j) != now && c.void(d, e) && next_to((i, j), (d, e)) implies m@[e]@[d] by {
            if i == a && j == b {
                assert(on_stack(stack@, i, j));
            } else {
                assert(m0[j]@[i]);
                assert(!on_stack(s0, i, j));
                assert(m0[e]@[d]);
            }
        }
        assert forall|k: int| 0 <= k < stack@.len() implies c.has((#[trigger] stack@[k]).0 as int, stack@[k].1 as int) && m@[stack@[k].1 as int]@[stack@[k].0 as int] by {
            if k < s0.len() {
                assert(stack@[k] == s0[k]);
                assert(m0[s0[k].1 as int]@[s0[k].0 as int]);
            }
        }
        assert forall|i: int, j: int| c.has(i, j) && #[trigger] m@[j]@[i] implies c.void(i, j) && c.escapes(i, j) by {
            if !(i == a && j == b) {
                assert(m0[j]@[i]);
            }
        }
    }
}

/// Every cell of a way out is marked once nothing waits.
proof fn lemma_way_out_marked(c: Cells, cov: Seq<Vec<bool>>, m: Seq<Vec<bool>>, p: Seq<(int, int)>, k: int)
    requires
        flooding(c, cov, m, Seq::empty(), (-1, -1)),
        forall|i: int, j: int| c.void(i, j) && c.on_rim(i, j) ==> #[trigger] m[j]@[i],
        c.way_out(p),
        0 <= k < p.len(),
    ensures
        m[p[k].1]@[p[k].0],
    decreases p.len() - k,
{
    assert(c.void(p[k].0, p[k].1));
    if k == p.len() - 1 {
        assert(c.on_rim(p[k].0, p[k].1));
    } else {
        lemma_way_out_marked(c, cov, m, p, k + 1);
        assert(c.void(p[k + 1].0, p[k + 1].1));
        assert(next_to(p[k], p[k + 1]));
        assert(!on_stack(Seq::empty(), p[k + 1].0, p[k + 1].1));
        assert(m[p[k + 1].1]@[p[k + 1].0]);
        assert(next_to((p[k + 1].0, p[k + 1].1), (p[k].0, p[k].1)));
        let t = m[p[k].1]@[p[k].0];
    }
}

/// Mark every void cell with a way out.
fn flood(cov: &Vec<Vec<bool>>, nx: usize, ny: usize, Ghost(c): Ghost<Cells>) -> (m: Vec<Vec<bool>>)
    requires
        nx == c.xs.len() - 1,
        ny == c.ys.len() - 1,
        table_fits(c, cov@),
        forall|i: int, j: int| c.has(i, j) ==> #[trigger] cov@[j]@[i] == c.full(i, j),
    ensures
        table_fits(c, m@),
        forall|i: int, j: int| c.has(i, j) ==> (#[trigger] m@[j]@[i] <==> c.escapes(i, j)),
{
    let mut m: Vec<Vec<bool>> = Vec::new();
    while m.len() < ny
        invariant
            m@.len() <= ny,
            forall|j: int| 0 <= j < m@.len() ==> (#[trigger] m@[j])@.len() == nx,
            forall|i: int, j: int| 0 <= j < m@.len() && 0 <= i < nx ==> !#[trigger] m@[j]@[i],
        decreases ny - m@.len(),
    {
        let mut row: Vec<bool> = Vec::new();
        while row.len() < nx
            invariant
                row@.len() <= nx,
                forall|i: int| 0 <= i < row@.len() ==> !#[trigger] row@[i],
            decreases nx - row@.len(),
        {
            row.push(false);
        }
        m.push(row);
    }
    let mut stack: Vec<(usize, usize)> = Vec::new();
    let ghost now = (-1int, -1int);
    let mut j: usize = 0;
    while j < ny
        invariant
            nx == c.xs.len() - 1,
            ny == c.ys.len() - 1,
            now == (-1int, -1int),
            j <= ny,
            flooding(c, cov@, m@, stack@, now),
            forall|a: int, b: int| c.void(a, b) && c.on_rim(a, b) && b < j ==> #[trigger] m@[b]@[a],
        decreases ny - j,
    {
        let mut i: usize = 0;
        while i < nx
            invariant
                nx == c.xs.len() - 1,
                ny == c.ys.len() - 1,
                now == (-1int, -1int),
                j < ny,
                i <= nx,
                flooding(c, cov@, m@, stack@, now),
                forall|a: int, b: int| c.void(a, b) && c.on_rim(a, b) && (b < j || b == j && a < i) ==> #[trigger] m@[b]@[a],
            decreases nx - i,
        {
            if i == 0 || j == 0 || i == nx - 1 || j == ny - 1 {
                mark_cell(cov, &mut m, &mut stack, i, j, Ghost(c), Ghost(now));
            }
            i = i + 1;
        }
        j = j + 1;
    }
    while stack.len() > 0
        invariant
            nx == c.xs.len() - 1,
            ny == c.ys.len() - 1,
            now == (-1int, -1int),
            flooding(c, cov@, m@, stack@, now),
            forall|a: int, b: int| c.void(a, b) && c.on_rim(a, b) ==> #[trigger] m@[b]@[a],
        decreases unset(m@), stack@.len(),
    {
        let ghost s0 = stack@;
        let ghost m0 = m@;
        let (i, j) = stack[stack.len() - 1];
        stack.pop();
        let ghost here = (i as int, j as int);
        proof {
            assert(s0[s0.len() - 1] == (i, j));
            assert(c.has(i as int, j as int));
            assert forall|x: int, y: int| on_stack(s0, x, y) && (x, y) != here implies on_stack(stack@, x, y) by {
                let k = choose|k: int| 0 <= k < s0.len() && (#[trigger] s0[k]).0 == x && s0[k].1 == y;
                assert(k < s0.len() - 1);
                assert(stack@[k] == s0[k]);
            }
            assert forall|x: int, y: int, a: int, b: int| #![trigger m@[y]@[x], m@[b]@[a]]
                c.has(x, y) && m@[y]@[x] && !on_stack(stack@, x, y) && (x, y) != here && c.void(a, b) && next_to((x, y), (a, b)) implies m@[b]@[a] by {
                assert(!on_stack(s0, x, y));
            }
            assert forall|k: int| 0 <= k < stack@.len() implies c.has((#[trigger] stack@[k]).0 as int, stack@[k].1 as int) && m@[stack@[k].1 as int]@[stack@[k].0 as int] by {
                assert(stack@[k] == s0[k]);
            }
            assert(flooding(c, cov@, m@, stack@, here));
        }
        if i > 0 {
            mark_cell(cov, &mut m, &mut stack, i - 1, j, Ghost(c), Ghost(here));
        }
        if i + 1 < nx {
            mark_cell(cov, &mut m, &mut stack, i + 1, j, Ghost(c), Ghost(here));
        }
        if j > 0 {
            mark_cell(cov, &mut m, &mut stack, i, j - 1, Ghost(c), Ghost(here));
        }
        if j + 1 < ny {
            mark_cell(cov, &mut m, &mut stack, i, j + 1, Ghost(c), Ghost(here));
        }
        proof {
            assert forall|x: int, y: int, a: int, b: int| #![trigger m@[y]@[x], m@[b]@[a]]
                c.has(x, y) && m@[y]@[x] && !on_stack(stack@, x, y) && (x, y) != now && c.void(a, b) && next_to((x, y), (a, b)) implies m@[b]@[a] by {
                if (x, y) == here {
                    assert(c.has(a, b));
                }
            }
        }
    }
    proof {
        assert(stack@ =~= Seq::empty());
        assert forall|i: int, j: int| c.has(i, j) implies (#[trigger] m@[j]@[i] <==> c.escapes(i, j)) by {
            if c.escapes(i, j) {
                let p = choose|p: Seq<(int, int)>| #[trigger] c.way_out(p) && p[0] == (i, j);
                lemma_way_out_marked(c, cov@, m@, p, 0);
            }
        }
    }
    m
}

/// Does some row cover a point?
fn covered_by_row(rows: &[Box4], cx: i32, cy: i32) -> (r: bool)
    ensures
        r == row_covers(rows@, cx as int, cy as int),
{
    let mut k: usize = 0;
    while k < rows.len()
        invariant
            k <= rows@.len(),
            forall|j: int| 0 <= j < k ==> !({
                let r = #[trigger] rows@[j];
                r.0 <= cx < r.2 && r.1 <= cy < r.3
            }),
        decreases rows@.len() - k,
    {
        let r = rows[k];
        if r.0 <= cx && cx < r.2 && r.1 <= cy && cy < r.3 {
            assert(rows@[k as int] == r);
            return true;
        }
        k = k + 1;
    }
    false
}

impl OuterShell {
    /// The cells between the shell's edges.
    pub open spec fn cells(&self, rows: Seq<Box4>) -> Cells {
        Cells { rows, xs: self.xs@, ys: self.ys@ }
    }

    /// The tables have the right sizes.
    pub open spec fn wf(&self) -> bool {
        if self.inside@.len() == 0 {
            true
        } else {
            &&& self.inside@.len() == self.ys@.len() - 1
            &&& forall|j: int| 0 <= j < self.inside@.len() ==> (#[trigger] self.inside@[j])@.len() == self.xs@.len() - 1
        }
    }

    /// The outline of some rows: a cell between their edges is inside where a row covers it, or
    /// where it is a hole that no way through uncovered cells leads out of.
    pub fn build(rows: &[Box4]) -> (r: OuterShell)
        requires
            rows@.len() < 0x3fff_ffff,
        ensures
            r.wf(),
            rows@.len() == 0 ==> r.xs@.len() == 0 && r.ys@.len() == 0 && r.inside@.len() == 0,
            rows@.len() > 0 ==> {
                let c = r.cells(rows@);
                &&& increasing(r.xs@)
                &&& increasing(r.ys@)
                &&& forall|x: i32| #[trigger] r.xs@.contains(x) <==> exists|k: int| 0 <= k < rows@.len() && ((#[trigger] rows@[k]).0 == x || rows@[k].2 == x)
                &&& forall|y: i32| #[trigger] r.ys@.contains(y) <==> exists|k: int| 0 <= k < rows@.len() && ((#[trigger] rows@[k]).1 == y || rows@[k].3 == y)
                &&& r.inside@.len() == r.ys@.len() - 1
                &&& forall|i: int, j: int| c.has(i, j) ==> #[trigger] r.inside@[j]@[i] == (c.full(i, j) || !c.escapes(i, j))
            },
    {
        if rows.len() == 0 {
            return OuterShell { xs: Vec::new(), ys: Vec::new(), inside: Vec::new() };
        }
        let mut xs: Vec<i32> = Vec::new();
        let mut ys: Vec<i32> = Vec::new();
        let mut n: usize = 0;
        while n < rows.len()
            invariant
                n <= rows@.len(),
                rows@.len() < 0x3fff_ffff,
                increasing(xs@),
                increasing(ys@),
                xs@.len() <= 2 * n,
                ys@.len() <= 2 * n,
                n > 0 ==> xs@.len() > 0 && ys@.len() > 0,
                forall|x: i32| #[trigger] xs@.contains(x) <==> exists|k: int| 0 <= k < n && ((#[trigger] rows@[k]).0 == x || rows@[k].2 == x),
                forall|y: i32| #[trigger] ys@.contains(y) <==> exists|k: int| 0 <= k < n && ((#[trigger] rows@[k]).1 == y || rows@[k].3 == y),
            decreases rows@.len() - n,
        {
            let r = rows[n];
            let ghost xs0 = xs@;
            let ghost ys0 = ys@;
            insert_boundary(&mut xs, r.0);
            insert_boundary(&mut xs, r.2);
            insert_boundary(&mut ys, r.1);
            insert_boundary(&mut ys, r.3);
            proof {
                assert(xs@.contains(r.0) && ys@.contains(r.1));
                assert forall|x: i32| #[trigger] xs@.contains(x) <==> exists|k: int| 0 <= k < n + 1 && ((#[trigger] rows@[k]).0 == x || rows@[k].2 == x) by {
                    assert(xs@.contains(x) <==> xs0.contains(x) || x == r.0 || x == r.2);
                    if x == r.0 || x == r.2 {
                        assert(rows@[n as int] == r);
                    }
                    if exists|k: int| 0 <= k < n + 1 && ((#[trigger] rows@[k]).0 == x || rows@[k].2 == x) {
                        let k = choose|k: int| 0 <= k < n + 1 && ((#[trigger] rows@[k]).0 == x || rows@[k].2 == x);
                        if k < n { assert(xs0.contains(x)); }
                    }
                }
                assert forall|y: i32| #[trigger] ys@.contains(y) <==> exists|k: int| 0 <= k < n + 1 && ((#[trigger] rows@[k]).1 == y || rows@[k].3 == y) by {
                    assert(ys@.contains(y) <==> ys0.contains(y) || y == r.1 || y == r.3);
                    if y == r.1 || y == r.3 {
                        assert(rows@[n as int] == r);
                    }
                    if exists|k: int| 0 <= k < n + 1 && ((#[trigger] rows@[k]).1 == y || rows@[k].3 == y) {
                        let k = choose|k: int| 0 <= k < n + 1 && ((#[trigger] rows@[k]).1 == y || rows@[k].3 == y);
                        if k < n { assert(ys0.contains(y)); }
                    }
                }
            }
            n = n + 1;
        }
        let nx: usize = xs.len() - 1;
        let ny: usize = ys.len() - 1;
        let ghost c = Cells { rows: rows@, xs: xs@, ys: ys@ };
        let mut cov: Vec<Vec<bool>> = Vec::new();
        let mut j: usize = 0;
        while j < ny
            invariant
                nx == xs@.len() - 1,
                ny == ys@.len() - 1,
                c == (Cells { rows: rows@, xs: xs@, ys: ys@ }),
                j <= ny,
                cov@.len() == j,
                forall|b: int| 0 <= b < j ==> (#[trigger] cov@[b])@.len() == nx,
                forall|a: int, b: int| 0 <= a < nx && 0 <= b < j ==> #[trigger] cov@[b]@[a] == c.full(a, b),
            decreases ny - j,
        {
            let mut row: Vec<bool> = Vec::new();
            let mut i: usize = 0;
            while i < nx
                invariant
                    nx == xs@.len() - 1,
                    ny == ys@.len() - 1,
                    c == (Cells { rows: rows@, xs: xs@, ys: ys@ }),
                    j < ny,
                    i <= nx,
                    row@.len() == i,
                    forall|a: int| 0 <= a < i ==> #[trigger] row@[a] == c.full(a, j as int),
                decreases nx - i,
            {
                row.push(covered_by_row(rows, xs[i], ys[j]));
                i = i + 1;
            }
            cov.push(row);
            j = j + 1;
        }
        let m = flood(&cov, nx, ny, Ghost(c));
        let mut inside: Vec<Vec<bool>> = Vec::new();
        j = 0;
        while j < ny
            invariant
                nx == c.xs.len() - 1,
                ny == c.ys.len() - 1,
                j <= ny,
                table_fits(c, m@),
                table_fits(c, cov@),
                forall|a: int, b: int| c.has(a, b) ==> #[trigger] cov@[b]@[a] == c.full(a, b),
                forall|a: int, b: int| c.has(a, b) ==> (#[trigger] m@[b]@[a] <==> c.escapes(a, b)),
                inside@.len() == j,
                forall|b: int| 0 <= b < j ==> (#[trigger] inside@[b])@.len() == nx,
                forall|a: int, b: int| 0 <= a < nx && 0 <= b < j ==> #[trigger] inside@[b]@[a] == (c.full(a, b) || !c.escapes(a, b)),
            decreases ny - j,
        {
            let mut row: Vec<bool> = Vec::new();
            let mut i: usize = 0;
            while i < nx
                invariant
                    nx == c.xs.len() - 1,
                    ny == c.ys.len() - 1,
                    j < ny,
                    i <= nx,
                    table_fits(c, m@),
                    table_fits(c, cov@),
                    forall|a: int, b: int| c.has(a, b) ==> #[trigger] cov@[b]@[a] == c.full(a, b),
                    forall|a: int, b: int| c.has(a, b) ==> (#[trigger] m@[b]@[a] <==> c.escapes(a, b)),
                    row@.len() == i,
                    forall|a: int| 0 <= a < i ==> #[trigger] row@[a] == (c.full(a, j as int) || !c.escapes(a, j as int)),
                decreases nx - i,
            {
                assert(c.has(i as int, j as int));
                row.push(cov[j][i] || !m[j][i]);
                i = i + 1;
            }
            inside.push(row);
            j = j + 1;
        }
        OuterShell { xs, ys, inside }
    }

    /// Does a box meet the outline? Touching edges count.
    pub fn intersects(&self, b: (i32, i32, i32, i32)) -> (r: bool)
        requires
            self.wf(),
        ensures
            r == self.touches(b),
    {
        let mut j: usize = 0;
        while j < self.inside.len()
            invariant
                self.wf(),
                j <= self.inside@.len(),
                forall|a: int, c: int| 0 <= c < j && 0 <= a < self.inside@[c]@.len() && #[trigger] self.inside@[c]@[a] ==>
                    !(b.0 <= self.xs@[a + 1] && self.xs@[a] <= b.2 && b.1 <= self.ys@[c + 1] && self.ys@[c] <= b.3),
            decreases self.inside@.len() - j,
        {
            let row = &self.inside[j];
            let nx: usize = self.xs.len();
            let ny: usize = self.ys.len();
            let mut i: usize = 0;
            while i < row.len()
                invariant
                    self.wf(),
                    nx == self.xs@.len(),
                    ny == self.ys@.len(),
                    j < self.inside@.len(),
                    row == &self.inside@[j as int],
                    i <= row@.len(),
                    forall|a: int| 0 <= a < i && #[trigger] row@[a] ==>
                        !(b.0 <= self.xs@[a + 1] && self.xs@[a] <= b.2 && b.1 <= self.ys@[j + 1] && self.ys@[j as int] <= b.3),
                decreases row@.len() - i,
            {
                if row[i] && b.0 <= self.xs[i + 1] && self.xs[i] <= b.2 && b.1 <= self.ys[j + 1] && self.ys[j] <= b.3 {
                    assert(self.inside@[j as int]@[i as int]);
                    return true;
                }
                i = i + 1;
            }
            j = j + 1;
        }
        false
    }
}

/// Every row lies inside the outline: the cell at its lower left corner is inside.
pub proof fn law_rows_are_inside(s: OuterShell, rows: Seq<Box4>, k: int, i: int, j: int)
    requires
        0 <= k < rows.len(),
        s.cells(rows).has(i, j),
        s.inside@[j]@[i] == (s.cells(rows).full(i, j) || !s.cells(rows).escapes(i, j)),
        rows[k].0 <= s.xs@[i] < rows[k].2,
        rows[k].1 <= s.ys@[j] < rows[k].3,
    ensures
        s.inside@[j]@[i],
{
    let r = rows[k];
    assert(row_covers(rows, s.xs@[i] as int, s.ys@[j] as int));
}

/// An uncovered cell on the rim of the bounding box is never filled.
pub proof fn law_open_notch_is_outside(s: OuterShell, rows: Seq<Box4>, i: int, j: int)
    requires
        s.cells(rows).void(i, j),
        s.cells(rows).on_rim(i, j),
        s.inside@[j]@[i] == (s.cells(rows).full(i, j) || !s.cells(rows).escapes(i, j)),
    ensures
        !s.inside@[j]@[i],
{
    let p = seq![(i, j)];
    assert(s.cells(rows).way_out(p));
}

/// The boxes of the first `n` rows whose site is not a pad site.
pub open spec fn placement_rows(rows: Seq<(Box4, String)>, n: int) -> Seq<Box4>
    decreases n,
{
    if n <= 0 {
        Seq::empty()
    } else {
        let s = placement_rows(rows, n - 1);
        if rows[n - 1].1@ != "PAD"@ { s.push(rows[n - 1].0) } else { s }
    }
}

/// The rows the outline is made of: every row, with its site's class, whose site is not a pad site.
pub fn row_boxes(rows: &[(Box4, String)]) -> (r: Vec<Box4>)
    ensures
        r@ == placement_rows(rows@, rows@.len() as int),
{
    let mut out: Vec<Box4> = Vec::new();
    let mut k: usize = 0;
    while k < rows.len()
        invariant
            k <= rows@.len(),
            out@ == placement_rows(rows@, k as int),
        decreases rows@.len() - k,
    {
        if !same_text(rows[k].1.as_str(), "PAD") {
            out.push(rows[k].0);
        }
        k = k + 1;
    }
    out
}

/// An instance of the design.
#[derive(Debug)]
pub struct NetInst {
    pub name: String,
    /// Whether the placer may place its master.
    pub auto_placeable: bool,
    pub fixed: bool,
    /// Its box, where it has one.
    pub bbox: Option<Box4>,
}

impl OuterShell {
    /// Whether a box meets the outline.
    pub open spec fn touches(&self, b: Box4) -> bool {
        exists|i: int, j: int| 0 <= j < self.inside@.len() && 0 <= i < self.inside@[j]@.len() && #[trigger] self.inside@[j]@[i]
            && b.0 <= self.xs@[i + 1] && self.xs@[i] <= b.2 && b.1 <= self.ys@[j + 1] && self.ys@[j] <= b.3
    }
}

/// Whether an instance becomes a cell: its master may be placed, and it is not a fixed instance
/// outside the outline.
pub open spec fn in_network(shell: OuterShell, i: NetInst) -> bool {
    i.auto_placeable && !(i.fixed && (i.bbox matches Some(b) && !shell.touches(b)))
}

/// The numbers below `n`.
pub open spec fn numbers(n: nat) -> Seq<usize> {
    Seq::new(n, |i: int| i as usize)
}

/// The names of an instance list.
pub open spec fn names_of(insts: Seq<NetInst>) -> Seq<String> {
    Seq::new(insts.len(), |i: int| insts[i].name)
}

/// The names of the cells among the first `n` instances of an order.
pub open spec fn cell_names(shell: OuterShell, insts: Seq<NetInst>, ix: Seq<usize>, n: int) -> Seq<String>
    decreases n,
{
    if n <= 0 {
        Seq::empty()
    } else {
        let s = cell_names(shell, insts, ix, n - 1);
        if in_network(shell, insts[ix[n - 1] as int]) { s.push(insts[ix[n - 1] as int].name) } else { s }
    }
}

/// Whether `ix` lists the instances in the order of their names.
pub open spec fn name_order(names: Seq<String>, o: ByName, ix: Seq<usize>) -> bool {
    &&& o.names@ == names
    &&& ascending(o, ix)
    &&& ix.to_multiset() == numbers(names.len()).to_multiset()
}

/// The instances that become cells, in the order of their names.
pub fn network_insts(insts: &[NetInst], shell: &OuterShell) -> (r: Vec<String>)
    requires
        shell.wf(),
    ensures
        exists|o: ByName, ix: Seq<usize>| #[trigger] name_order(names_of(insts@), o, ix) && r@ == cell_names(*shell, insts@, ix, ix.len() as int),
{
    let mut names: Vec<String> = Vec::new();
    let mut all: Vec<usize> = Vec::new();
    let mut k: usize = 0;
    while k < insts.len()
        invariant
            k <= insts@.len(),
            names@ == names_of(insts@).subrange(0, k as int),
            all@ == numbers(insts@.len()).subrange(0, k as int),
        decreases insts@.len() - k,
    {
        names.push(insts[k].name.clone());
        all.push(k);
        k = k + 1;
        assert(names@ =~= names_of(insts@).subrange(0, k as int));
        assert(all@ =~= numbers(insts@.len()).subrange(0, k as int));
    }
    assert(names@ =~= names_of(insts@));
    assert(all@ =~= numbers(insts@.len()));
    let o = ByName { names: &names };
    let ix = sorted_in(&o, &all);
    proof {
        let below = |i: usize| i < insts@.len();
        crate::sort::lemma_rearranged(all@, ix@, below);
        assert(name_order(names_of(insts@), o, ix@));
    }
    let mut out: Vec<String> = Vec::new();
    k = 0;
    while k < ix.len()
        invariant
            k <= ix@.len(),
            shell.wf(),
            forall|j: int| 0 <= j < ix@.len() ==> #[trigger] ix@[j] < insts@.len(),
            out@ == cell_names(*shell, insts@, ix@, k as int),
        decreases ix@.len() - k,
    {
        let inst = &insts[ix[k]];
        let outside: bool = if inst.fixed {
            match inst.bbox {
                Some(b) => !shell.intersects(b),
                None => false,
            }
        } else {
            false
        };
        if inst.auto_placeable && !outside {
            out.push(inst.name.clone());
        }
        k = k + 1;
    }
    out
}

} // verus!
