//! Site-aligned places for a run of cells in a row that keep the cells near their targets.

use vstd::prelude::*;
use crate::arith::dist;
use crate::rows::{Row, COORD_LIMIT};

verus! {

/// A run of cells to place on the sites `i0..=i1` of a row: the sites each cell takes and the left
/// edge it would have best.
pub ghost struct Fit {
    pub row: Row,
    pub i0: int,
    pub i1: int,
    pub wide: Seq<i32>,
    pub target: Seq<i32>,
}

/// The sites that the first `n` cells take.
pub open spec fn taken(wide: Seq<i32>, n: int) -> int
    decreases n,
{
    if n <= 0 { 0 } else { taken(wide, n - 1) + wide[n - 1] }
}

/// The lower of two costs, of which either may be unreachable; the first of two equal ones.
pub open spec fn cheaper(a: Option<int>, b: Option<int>) -> bool {
    b is Some && (a is None || b->Some_0 < a->Some_0)
}

impl Fit {
    /// The number of sites.
    pub open spec fn sites(self) -> int {
        self.i1 - self.i0 + 1
    }

    /// The left edge of a cell that starts at site `i`, counted from 1.
    pub open spec fn edge(self, i: int) -> int {
        self.row.left + (self.i0 + i - 1) * self.row.site_spacing
    }

    /// What it costs to start cell `j` at site `i`, both counted from 1: the distance from its
    /// target.
    pub open spec fn cost(self, i: int, j: int) -> int {
        dist(self.edge(i), self.target[j - 1] as int)
    }

    /// How many sites behind the start of the cell before it cell `j` starts at least; the first cell
    /// starts at any site.
    pub open spec fn step(self, j: int) -> int {
        if j == 1 { 1 } else { self.wide[j - 2] as int }
    }

    /// The cost of the cheapest way to have cell `j` start at site `i`, behind the first `j - 1` cells.
    pub open spec fn started(self, i: int, j: int) -> Option<int>
        decreases j, i, 0int,
    {
        let ii = i - self.step(j);
        if i < 1 || j < 1 || ii < 0 || ii > i || self.i0 + i - 1 + self.wide[j - 1] - 1 > self.i1 {
            None
        } else {
            match self.least(ii, j - 1) {
                Some(c) => Some(c + self.cost(i, j)),
                None => None,
            }
        }
    }

    /// The cost of the cheapest way to start the first `j` cells at sites up to `i`.
    pub open spec fn least(self, i: int, j: int) -> Option<int>
        decreases j, i, 1int,
    {
        if i < 0 || j < 0 {
            None
        } else if j == 0 {
            Some(0)
        } else if i == 0 {
            None
        } else {
            let a = self.least(i - 1, j);
            let b = self.started(i, j);
            if cheaper(a, b) { b } else { a }
        }
    }

    /// Whether the cheapest way starts cell `j` at site `i`.
    pub open spec fn starts(self, i: int, j: int) -> bool {
        cheaper(self.least(i - 1, j), self.started(i, j))
    }

    /// The left edges of the first `j` cells in the cheapest way that uses sites up to `i`.
    pub open spec fn edges(self, i: int, j: int) -> Seq<i32>
        decreases j, i,
    {
        if i <= 0 || j <= 0 {
            Seq::empty()
        } else if self.starts(i, j) && 0 <= i - self.step(j) <= i {
            self.edges(i - self.step(j), j - 1).push(self.edge(i) as i32)
        } else {
            self.edges(i - 1, j)
        }
    }

    /// The numbers are within the limit.
    pub open spec fn wf(self) -> bool {
        &&& self.row.ok()
        &&& self.wide.len() == self.target.len()
        &&& self.wide.len() <= COORD_LIMIT
        &&& forall|k: int| 0 <= k < self.wide.len() ==> 0 <= #[trigger] self.wide[k] <= 4 * COORD_LIMIT
        &&& -16 * COORD_LIMIT <= self.i0 && self.i1 <= 16 * COORD_LIMIT
        &&& self.sites() <= 32 * COORD_LIMIT
        &&& forall|i: int| 1 <= i <= self.sites() ==> i32::MIN <= #[trigger] self.edge(i) <= i32::MAX
    }

    /// The arrangement `at`, of sites counted from 1, is allowed: each cell but the first starts behind the
    /// cell before it, and every one ends in the row part.
    pub open spec fn allowed(self, at: Seq<int>, i: int) -> bool {
        &&& forall|k: int| 0 <= k < at.len() ==> 1 <= #[trigger] at[k] <= i
        &&& forall|k: int| 0 <= k < at.len() ==> self.i0 + #[trigger] at[k] - 1 + self.wide[k] - 1 <= self.i1
        &&& forall|k: int| 1 <= k < at.len() ==> #[trigger] at[k] - self.wide[k - 1] >= at[k - 1]
    }

    /// What an arrangement costs.
    pub open spec fn price(self, at: Seq<int>) -> int
        decreases at.len(),
    {
        if at.len() == 0 { 0 } else { self.price(at.drop_last()) + self.cost(at.last(), at.len() as int) }
    }

    /// The sites of the first `j` cells in the cheapest way that uses sites up to `i`.
    pub open spec fn picked(self, i: int, j: int) -> Seq<int>
        decreases j, i,
    {
        if i <= 0 || j <= 0 {
            Seq::empty()
        } else if self.starts(i, j) && 0 <= i - self.step(j) <= i {
            self.picked(i - self.step(j), j - 1).push(i)
        } else {
            self.picked(i - 1, j)
        }
    }
}

proof fn lemma_least_monotone(f: Fit, i: int, k: int, j: int)
    requires
        f.wf(),
        0 <= i <= k,
        1 <= j <= f.wide.len(),
        f.least(i, j) is Some,
    ensures
        f.least(k, j) is Some,
        f.least(k, j)->Some_0 <= f.least(i, j)->Some_0,
    decreases k - i,
{
    if i < k {
        lemma_least_monotone(f, i, k - 1, j);
    }
}

/// The cheapest cost is that of no more than any allowed arrangement of the first `j` cells.
proof fn lemma_least_bounds(f: Fit, i: int, at: Seq<int>)
    requires
        f.wf(),
        0 <= i <= f.sites(),
        0 < at.len() <= f.wide.len(),
        f.allowed(at, i),
    ensures
        f.least(i, at.len() as int) is Some,
        f.least(i, at.len() as int)->Some_0 <= f.price(at),
    decreases at.len(),
{
    let j = at.len() as int;
    let x = at.last();
    assert(x == at[j - 1]);
    let before = at.drop_last();
    let ii = x - f.step(j);
    if j == 1 {
        assert(before.len() == 0);
        assert(f.price(before) == 0);
        assert(f.least(ii, 0) == Some(0int));
    } else {
        assert(at[j - 1] - f.wide[j - 2] >= at[j - 2]);
        assert forall|k: int| 0 <= k < before.len() implies 1 <= #[trigger] before[k] <= ii by {
            assert(before[k] == at[k]);
            lemma_rising(f, at, i, k, j - 2);
        }
        assert forall|k: int| 0 <= k < before.len() implies f.i0 + #[trigger] before[k] - 1 + f.wide[k] - 1 <= f.i1 by {
            assert(before[k] == at[k]);
        }
        assert forall|k: int| 1 <= k < before.len() implies #[trigger] before[k] - f.wide[k - 1] >= before[k - 1] by {
            assert(at[k] - f.wide[k - 1] >= at[k - 1]);
        }
        assert(f.wide[j - 2] >= 0);
        lemma_least_bounds(f, ii, before);
    }
    assert(f.wide[j - 1] >= 0);
    assert(f.started(x, j) is Some);
    assert(f.least(x, j) is Some && f.least(x, j)->Some_0 <= f.started(x, j)->Some_0);
    lemma_least_monotone(f, x, i, j);
}

proof fn lemma_rising(f: Fit, at: Seq<int>, i: int, a: int, b: int)
    requires
        f.wf(),
        f.allowed(at, i),
        at.len() <= f.wide.len(),
        0 <= a <= b < at.len(),
    ensures
        at[a] <= at[b],
    decreases b - a,
{
    if a < b {
        lemma_rising(f, at, i, a, b - 1);
        assert(at[b] - f.wide[b - 1] >= at[b - 1]);
        assert(f.wide[b - 1] >= 0);
    }
}

proof fn lemma_picked(f: Fit, i: int, j: int)
    requires
        f.wf(),
        0 <= i <= f.sites(),
        0 <= j <= f.wide.len(),
        f.least(i, j) is Some,
    ensures
        f.picked(i, j).len() == j,
        f.edges(i, j).len() == j,
        f.allowed(f.picked(i, j), i),
        f.price(f.picked(i, j)) == f.least(i, j)->Some_0,
        forall|k: int| 0 <= k < j ==> #[trigger] f.edges(i, j)[k] == f.edge(f.picked(i, j)[k]),
    decreases j, i,
{
    if j > 0 && i > 0 {
        if f.starts(i, j) {
            let ii = i - f.step(j);
            assert(0 <= ii <= i);
            lemma_picked(f, ii, j - 1);
            let p = f.picked(ii, j - 1);
            let q = f.picked(i, j);
            assert(q == p.push(i));
            assert(q.drop_last() =~= p);
            assert forall|k: int| 0 <= k < q.len() implies 1 <= #[trigger] q[k] <= i by {
                if k < p.len() {
                    assert(q[k] == p[k]);
                }
            }
            assert forall|k: int| 0 <= k < q.len() implies f.i0 + #[trigger] q[k] - 1 + f.wide[k] - 1 <= f.i1 by {
                if k < p.len() {
                    assert(q[k] == p[k]);
                }
            }
            assert forall|k: int| 1 <= k < q.len() implies #[trigger] q[k] - f.wide[k - 1] >= q[k - 1] by {
                if k < p.len() {
                    assert(q[k] == p[k] && q[k - 1] == p[k - 1]);
                } else {
                    assert(q[k - 1] == p[k - 1]);
                    assert(1 <= p[k - 1] <= ii);
                }
            }
        } else {
            lemma_picked(f, i - 1, j);
            let p = f.picked(i - 1, j);
            assert forall|k: int| 0 <= k < p.len() implies 1 <= #[trigger] p[k] <= i by {
                assert(1 <= p[k] <= i - 1);
            }
        }
    }
}

/// The left edges of an arrangement.
pub open spec fn edges_of(f: Fit, at: Seq<int>) -> Seq<i32> {
    Seq::new(at.len(), |k: int| f.edge(at[k]) as i32)
}

/// The summed distance of some left edges from the targets.
pub open spec fn displacement(v: Seq<i32>, target: Seq<i32>, n: int) -> int
    decreases n,
{
    if n <= 0 { 0 } else { displacement(v, target, n - 1) + dist(v[n - 1] as int, target[n - 1] as int) }
}

proof fn lemma_displacement(f: Fit, at: Seq<int>, v: Seq<i32>)
    requires
        f.wf(),
        at.len() <= f.wide.len(),
        f.allowed(at, f.sites()),
        v.len() >= at.len(),
        forall|k: int| 0 <= k < at.len() ==> #[trigger] v[k] == f.edge(at[k]),
    ensures
        displacement(v, f.target, at.len() as int) == f.price(at),
    decreases at.len(),
{
    if at.len() > 0 {
        let p = at.drop_last();
        assert forall|k: int| 0 <= k < p.len() implies 1 <= #[trigger] p[k] <= f.sites() by {
            assert(p[k] == at[k]);
        }
        assert forall|k: int| 0 <= k < p.len() implies f.i0 + #[trigger] p[k] - 1 + f.wide[k] - 1 <= f.i1 by {
            assert(p[k] == at[k]);
        }
        assert forall|k: int| 1 <= k < p.len() implies #[trigger] p[k] - f.wide[k - 1] >= p[k - 1] by {
            assert(at[k] - f.wide[k - 1] >= at[k - 1]);
        }
        lemma_displacement(f, p, v);
        assert(v[at.len() - 1] == f.edge(at[at.len() - 1]));
    }
}

/// An arrangement takes at least the sites of its cells.
proof fn lemma_reaches(f: Fit, at: Seq<int>, k: int)
    requires
        f.wf(),
        at.len() <= f.wide.len(),
        f.allowed(at, f.sites()),
        0 <= k < at.len(),
    ensures
        at[k] >= 1 + taken(f.wide, k),
    decreases k,
{
    if k > 0 {
        lemma_reaches(f, at, k - 1);
        assert(at[k] - f.wide[k - 1] >= at[k - 1]);
    }
}

/// Where cells can be arranged on the sites at all, places are found; they are an arrangement themselves, and
/// the summed distance from the targets is least among all arrangements.
pub proof fn law_picked_places_are_cheapest(f: Fit, at: Seq<int>)
    requires
        f.wf(),
        f.wide.len() > 0,
    ensures
        fitted(f) matches Some(v) ==> exists|p: Seq<int>| #[trigger] f.allowed(p, f.sites()) && p.len() == f.wide.len() && v == edges_of(f, p),
        at.len() == f.wide.len() && f.allowed(at, f.sites()) ==> (fitted(f) matches Some(v)
            && displacement(v, f.target, v.len() as int) <= displacement(edges_of(f, at), f.target, at.len() as int)),
{
    let n = f.wide.len() as int;
    let m = f.sites();
    if fitted(f) is Some {
        lemma_picked(f, m, n);
        let p = f.picked(m, n);
        assert forall|k: int| 0 <= k < n implies i32::MIN <= #[trigger] f.edge(p[k]) <= i32::MAX by {
            assert(1 <= p[k] <= m);
        }
        assert(f.edges(m, n) =~= edges_of(f, p));
        lemma_displacement(f, p, f.edges(m, n));
    }
    if at.len() == n && f.allowed(at, m) {
        assert(1 <= at[0] <= m);
        lemma_least_bounds(f, m, at);
        lemma_reaches(f, at, n - 1);
        assert(f.i0 + at[n - 1] - 1 + f.wide[n - 1] - 1 <= f.i1);
        assert(taken(f.wide, n) <= m);
        assert(has_room(f));
        lemma_picked(f, m, n);
        assert forall|k: int| 0 <= k < n implies i32::MIN <= #[trigger] f.edge(at[k]) <= i32::MAX by {
            assert(1 <= at[k] <= m);
        }
        lemma_displacement(f, at, edges_of(f, at));
    }
}

/// Whether the sites suffice for the cells.
pub open spec fn has_room(f: Fit) -> bool {
    taken(f.wide, f.wide.len() as int) <= f.sites() && 0 <= f.sites()
}

/// The places of a run, if there are any.
pub open spec fn fitted(f: Fit) -> Option<Seq<i32>> {
    let n = f.wide.len() as int;
    if has_room(f) && f.least(f.sites(), n) is Some { Some(f.edges(f.sites(), n)) } else { None }
}

proof fn lemma_taken_bound(wide: Seq<i32>, n: int)
    requires
        0 <= n <= wide.len(),
        wide.len() <= COORD_LIMIT,
        forall|k: int| 0 <= k < wide.len() ==> 0 <= #[trigger] wide[k] <= 4 * COORD_LIMIT,
    ensures
        0 <= taken(wide, n) <= n * (4 * COORD_LIMIT),
    decreases n,
{
    if n > 0 {
        lemma_taken_bound(wide, n - 1);
        assert(n * (4 * COORD_LIMIT) == (n - 1) * (4 * COORD_LIMIT) + 4 * COORD_LIMIT) by (nonlinear_arith);
    } else {
        assert(0 * (4 * COORD_LIMIT) == 0);
    }
}

/// Whether the sites suffice for the cells.
fn sites_suffice(wide: &Vec<i32>, i0: i64, i1: i64, Ghost(f): Ghost<Fit>) -> (r: bool)
    requires
        f.wf(),
        f.i0 == i0,
        f.i1 == i1,
        f.wide == wide@,
        -0x1_0000_0000 <= i0 <= 0x1_0000_0000,
        -0x1_0000_0000 <= i1 <= 0x1_0000_0000,
    ensures
        r == has_room(f),
{
    let n: usize = wide.len();
    let mut sum: i64 = 0;
    let mut j: usize = 0;
    while j < n
        invariant
            f.wf(),
            f.wide == wide@,
            n == wide@.len(),
            j <= n,
            sum == taken(wide@, j as int),
        decreases n - j,
    {
        proof {
            lemma_taken_bound(wide@, j as int);
            assert(j * (4 * COORD_LIMIT) <= COORD_LIMIT * (4 * COORD_LIMIT)) by (nonlinear_arith)
                requires j <= COORD_LIMIT;
        }
        sum = sum + wide[j] as i64;
        j = j + 1;
    }
    let sites: i64 = i1 - i0 + 1;
    sum <= sites && 0 <= sites
}

/// One column of costs: those of the first `j` cells at sites up to each site.
fn cost_column(row: &Row, i0: i64, i1: i64, wide: &Vec<i32>, target: &Vec<i32>, j: usize, prev: &Vec<Option<i64>>, Ghost(f): Ghost<Fit>)
    -> (r: (Vec<Option<i64>>, Vec<bool>))
    requires
        f.wf(),
        f == (Fit { row: *row, i0: i0 as int, i1: i1 as int, wide: wide@, target: target@ }),
        -0x1_0000_0000 <= i0 <= 0x1_0000_0000,
        -0x1_0000_0000 <= i1 <= 0x1_0000_0000,
        0 <= f.sites(),
        1 <= j <= wide@.len(),
        prev@.len() == f.sites() + 1,
        forall|i: int| 0 <= i <= f.sites() ==> same_cost(#[trigger] prev@[i], f.least(i, j - 1)),
        forall|i: int| 0 <= i <= f.sites() ==> (#[trigger] prev@[i] matches Some(c) ==> 0 <= c <= (j - 1) * 0x2_0000_0000),
    ensures
        r.0@.len() == f.sites() + 1,
        r.1@.len() == f.sites() + 1,
        forall|i: int| 0 <= i <= f.sites() ==> same_cost(#[trigger] r.0@[i], f.least(i, j as int)),
        forall|i: int| 0 <= i <= f.sites() ==> (#[trigger] r.0@[i] matches Some(c) ==> 0 <= c <= j * 0x2_0000_0000),
        forall|i: int| 1 <= i <= f.sites() ==> #[trigger] r.1@[i] == f.starts(i, j as int),
{
    let n: i64 = i1 - i0 + 1;
    let all: usize = prev.len();
    let mut col: Vec<Option<i64>> = Vec::new();
    let mut use_here: Vec<bool> = Vec::new();
    col.push(None);
    use_here.push(false);
    assert(f.wide[j - 1] >= 0);
    let step: i64 = if j == 1 { 1 } else {
        assert(f.wide[j - 2] >= 0);
        wide[j - 2] as i64
    };
    let mut i: i64 = 1;
    while i <= n
        invariant
            f.wf(),
            f == (Fit { row: *row, i0: i0 as int, i1: i1 as int, wide: wide@, target: target@ }),
            -0x1_0000_0000 <= i0 <= 0x1_0000_0000,
            -0x1_0000_0000 <= i1 <= 0x1_0000_0000,
            n == f.sites(),
            0 <= n <= 0x1_0000_0000,
            all == n + 1,
            1 <= i <= n + 1,
            1 <= j <= wide@.len(),
            0 <= wide@[j - 1] <= 4 * COORD_LIMIT,
            step == f.step(j as int),
            0 <= step <= 4 * COORD_LIMIT,
            prev@.len() == n + 1,
            forall|k: int| 0 <= k <= n ==> same_cost(#[trigger] prev@[k], f.least(k, j - 1)),
            forall|k: int| 0 <= k <= n ==> (#[trigger] prev@[k] matches Some(c) ==> 0 <= c <= (j - 1) * 0x2_0000_0000),
            col@.len() == i,
            use_here@.len() == i,
            forall|k: int| 0 <= k < i ==> same_cost(#[trigger] col@[k], f.least(k, j as int)),
            forall|k: int| 0 <= k < i ==> (#[trigger] col@[k] matches Some(c) ==> 0 <= c <= j * 0x2_0000_0000),
            forall|k: int| 1 <= k < i ==> #[trigger] use_here@[k] == f.starts(k, j as int),
        decreases n + 1 - i,
    {
        let site: i64 = i0 + i - 1;
        let skip: Option<i64> = col[i as usize - 1];
        let ii: i64 = i - step;
        let mut start: Option<i64> = None;
        proof {
            assert(j * 0x2_0000_0000 == (j - 1) * 0x2_0000_0000 + 0x2_0000_0000) by (nonlinear_arith);
            assert(j * 0x2_0000_0000 <= 0x0800_0000 * 0x2_0000_0000) by (nonlinear_arith)
                requires j <= 0x0800_0000;
        }
        if ii >= 0 && site + wide[j - 1] as i64 - 1 <= i1 {
            assert(same_cost(prev@[ii as int], f.least(ii as int, j - 1)));
            if let Some(c) = prev[ii as usize] {
                proof {
                    let sp = row.site_spacing as int;
                    let st = site as int;
                    assert(-0x4_0000_0000 * 0x0800_0000 <= st * sp <= 0x4_0000_0000 * 0x0800_0000) by (nonlinear_arith)
                        requires -0x4_0000_0000 <= st <= 0x4_0000_0000, 0 < sp <= 0x0800_0000;
                    assert(i32::MIN <= f.edge(i as int) <= i32::MAX);
                }
                let x: i64 = row.left as i64 + site * row.site_spacing as i64;
                let here: i64 = crate::arith::distance(x, target[j - 1] as i64);
                assert(here == f.cost(i as int, j as int));
                start = Some(c + here);
            }
        }
        assert(same_cost(start, f.started(i as int, j as int)));
        let better: bool = match (skip, start) {
            (None, Some(_)) => true,
            (Some(a), Some(b)) => b < a,
            _ => false,
        };
        assert(same_cost(skip, f.least(i - 1, j as int)));
        col.push(if better { start } else { skip });
        use_here.push(better);
        i = i + 1;
    }
    (col, use_here)
}

/// Whether two costs are the same.
pub open spec fn same_cost(a: Option<i64>, b: Option<int>) -> bool {
    match a {
        Some(x) => b == Some(x as int),
        None => b is None,
    }
}

/// Site-aligned left edges for a run of cells on the sites `i0..=i1` of a row, each cell behind the
/// one before it, at the least summed distance from their targets; `None` where there is no room.
pub fn fit_run(row: &Row, i0: i64, i1: i64, wide: &Vec<i32>, target: &Vec<i32>) -> (r: Option<Vec<i32>>)
    requires
        (Fit { row: *row, i0: i0 as int, i1: i1 as int, wide: wide@, target: target@ }).wf(),
        -0x1_0000_0000 <= i0 <= 0x1_0000_0000,
        -0x1_0000_0000 <= i1 <= 0x1_0000_0000,
    ensures
        ({
            let f = Fit { row: *row, i0: i0 as int, i1: i1 as int, wide: wide@, target: target@ };
            &&& r is Some <==> fitted(f) is Some
            &&& r matches Some(v) ==> fitted(f) == Some(v@) && v@.len() == wide@.len()
        }),
{
    let ghost f = Fit { row: *row, i0: i0 as int, i1: i1 as int, wide: wide@, target: target@ };
    let n: usize = wide.len();
    if !sites_suffice(wide, i0, i1, Ghost(f)) {
        return None;
    }
    let sites: i64 = i1 - i0 + 1;
    let mut col: Vec<Option<i64>> = Vec::new();
    col.push(Some(0));
    let mut k: i64 = 1;
    while k <= sites
        invariant
            sites == f.sites(),
            0 <= sites <= 0x1_0000_0000,
            1 <= k <= sites + 1,
            col@.len() == k,
            forall|i: int| 0 <= i < k ==> #[trigger] col@[i] == Some(0i64),
        decreases sites + 1 - k,
    {
        col.push(Some(0));
        k = k + 1;
    }
    proof {
        assert forall|i: int| 0 <= i <= sites implies same_cost(#[trigger] col@[i], f.least(i, 0)) by {
        }
        assert(0 * 0x2_0000_0000 == 0);
    }
    let mut taken_at: Vec<Vec<bool>> = Vec::new();
    let mut j: usize = 1;
    while j <= n
        invariant
            f.wf(),
            f == (Fit { row: *row, i0: i0 as int, i1: i1 as int, wide: wide@, target: target@ }),
            -0x1_0000_0000 <= i0 <= 0x1_0000_0000,
            -0x1_0000_0000 <= i1 <= 0x1_0000_0000,
            n == wide@.len(),
            sites == f.sites(),
            0 <= sites <= 0x1_0000_0000,
            1 <= j <= n + 1,
            col@.len() == sites + 1,
            forall|i: int| 0 <= i <= sites ==> same_cost(#[trigger] col@[i], f.least(i, j - 1)),
            forall|i: int| 0 <= i <= sites ==> (#[trigger] col@[i] matches Some(c) ==> 0 <= c <= (j - 1) * 0x2_0000_0000),
            taken_at@.len() == j - 1,
            forall|q: int| 1 <= q < j ==> (#[trigger] taken_at@[q - 1])@.len() == sites + 1,
            forall|q: int, i: int| 1 <= q < j && 1 <= i <= sites ==> #[trigger] taken_at@[q - 1]@[i] == f.starts(i, q),
        decreases n + 1 - j,
    {
        let (next, here) = cost_column(row, i0, i1, wide, target, j, &col, Ghost(f));
        let ghost t0 = taken_at@;
        col = next;
        taken_at.push(here);
        proof {
            assert forall|q: int, i: int| 1 <= q < j + 1 && 1 <= i <= sites implies #[trigger] taken_at@[q - 1]@[i] == f.starts(i, q) by {
                if q < j {
                    assert(taken_at@[q - 1] == t0[q - 1]);
                }
            }
            assert forall|q: int| 1 <= q < j + 1 implies (#[trigger] taken_at@[q - 1])@.len() == sites + 1 by {
                if q < j {
                    assert(taken_at@[q - 1] == t0[q - 1]);
                }
            }
        }
        j = j + 1;
    }
    assert(same_cost(col@[sites as int], f.least(sites as int, n as int)));
    let across: usize = col.len();
    assert(across == sites + 1);
    if col[sites as usize].is_none() {
        return None;
    }
    proof {
        lemma_picked(f, sites as int, n as int);
    }
    read_back(row, i0, sites, wide, &taken_at, Ghost(f))
}

/// The left edges that the starts of the cheapest way give.
fn read_back(row: &Row, i0: i64, sites: i64, wide: &Vec<i32>, taken_at: &Vec<Vec<bool>>, Ghost(f): Ghost<Fit>) -> (r: Option<Vec<i32>>)
    requires
        f.wf(),
        f.row == *row,
        f.i0 == i0,
        f.wide == wide@,
        sites == f.sites(),
        0 <= sites <= 0x1_0000_0000,
        -0x1_0000_0000 <= i0 <= 0x1_0000_0000,
        f.least(sites as int, wide@.len() as int) is Some,
        taken_at@.len() == wide@.len(),
        forall|q: int| 1 <= q <= wide@.len() ==> (#[trigger] taken_at@[q - 1])@.len() == sites + 1,
        forall|q: int, i: int| 1 <= q <= wide@.len() && 1 <= i <= sites ==> #[trigger] taken_at@[q - 1]@[i] == f.starts(i, q),
    ensures
        r matches Some(v) && v@ == f.edges(sites as int, wide@.len() as int) && v@.len() == wide@.len(),
{
    let n: usize = wide.len();
    let mut out: Vec<i32> = Vec::new();
    let mut z: usize = 0;
    while z < n
        invariant
            z <= n,
            out@.len() == z,
        decreases n - z,
    {
        out.push(0);
        z = z + 1;
    }
    let ghost full = f.edges(sites as int, n as int);
    proof {
        lemma_picked(f, sites as int, n as int);
    }
    let mut i: i64 = sites;
    let mut j: usize = n;
    while j > 0
        invariant
            f.wf(),
            f.row == *row,
            f.i0 == i0,
            f.wide == wide@,
            n == wide@.len(),
            sites == f.sites(),
            0 <= sites <= 0x1_0000_0000,
            -0x1_0000_0000 <= i0 <= 0x1_0000_0000,
            taken_at@.len() == n,
            forall|q: int| 1 <= q <= n ==> (#[trigger] taken_at@[q - 1])@.len() == sites + 1,
            forall|q: int, i: int| 1 <= q <= n && 1 <= i <= sites ==> #[trigger] taken_at@[q - 1]@[i] == f.starts(i, q),
            0 <= i <= sites,
            0 <= j <= n,
            out@.len() == n,
            full.len() == n,
            f.least(i as int, j as int) is Some,
            forall|k: int| 0 <= k < j ==> #[trigger] full[k] == f.edges(i as int, j as int)[k],
            forall|k: int| j <= k < n ==> #[trigger] out@[k] == full[k],
        decreases j, i,
    {
        proof {
            lemma_picked(f, i as int, j as int);
            if i == 0 {
                assert(false);
            }
        }
        let across: usize = taken_at[j - 1].len();
        assert(across == sites + 1);
        let here: bool = taken_at[j - 1][i as usize];
        assert(here == f.starts(i as int, j as int));
        if here {
            let step: i64 = if j == 1 { 1 } else {
                assert(0 <= f.wide[j - 2] <= 4 * COORD_LIMIT);
                wide[j - 2] as i64
            };
            let ghost before = f.edges(i as int, j as int);
            proof {
                assert(before == f.edges(i - step, j - 1).push(f.edge(i as int) as i32));
                lemma_picked(f, i - step, j - 1);
                let sp = row.site_spacing as int;
                let st = (i0 + i - 1) as int;
                assert(-0x4_0000_0000 * 0x0800_0000 <= st * sp <= 0x4_0000_0000 * 0x0800_0000) by (nonlinear_arith)
                    requires -0x4_0000_0000 <= st <= 0x4_0000_0000, 0 < sp <= 0x0800_0000;
                assert(i32::MIN <= f.edge(i as int) <= i32::MAX);
            }
            let x: i64 = row.left as i64 + (i0 + i - 1) * row.site_spacing as i64;
            out.set(j - 1, x as i32);
            proof {
                assert(full[j - 1] == before[j - 1]);
                assert forall|k: int| 0 <= k < j - 1 implies #[trigger] full[k] == f.edges(i - step, j - 1)[k] by {
                    assert(full[k] == before[k]);
                }
            }
            i = i - step;
            j = j - 1;
        } else {
            i = i - 1;
        }
    }
    assert(out@ =~= full);
    Some(out)
}

} // verus!
