//! One sweep of the negotiation: rip cells up in order, look for the cheapest place, put them down
//! again, then count what is still wrong and make contested squares dearer.

use vstd::prelude::*;
use crate::arith::{imax, imin};
use crate::consts::{COST_UNIT, INF_COST, ISOLATION_PT};
use crate::neg_grid::{in_foot, neg_stamped, touched, update_history_costs, Board, NegGrid, NegPixel, NegStamp};
use crate::negotiate::{disp_cost, displacement, scan_cost, sort_by_negotiation_order, square_cost, square_cost_at, square_ok, target_cost, target_cost_from_disp, SortKey, COST_LIMIT};
use crate::search::{agrees_wide, enumerate_candidates, rank_before, rank_less, Candidate, Scan, ScanRank};
use crate::sort::{in_order, lemma_ascending_unique, Natural};

verus! {

/// A cell as the sweep sees it, in grid units.
#[derive(Debug, Clone)]
pub struct SweepCell {
    pub name: String,
    pub x: i32,
    pub y: i32,
    /// Where the cell started; displacement is measured from here for the whole run.
    pub init_x: i32,
    pub init_y: i32,
    pub width: i32,
    pub height: i32,
    pub fixed: bool,
}

/// Coordinates stay within this bound.
pub const COORD_LIMIT: i32 = 0x2000_0000;

/// A run holds at most this many cells: the claims on a square are counted in 32 bits.
pub const CELL_LIMIT: usize = 0x7fff_fff0;

/// A position within the coordinate bound.
pub open spec fn near(x: int, y: int) -> bool {
    -COORD_LIMIT <= x <= COORD_LIMIT && -COORD_LIMIT <= y <= COORD_LIMIT
}

/// A cell whose size and coordinates are in range.
pub open spec fn cell_ok(c: SweepCell) -> bool {
    &&& near(c.x as int, c.y as int)
    &&& near(c.init_x as int, c.init_y as int)
    &&& 0 <= c.width <= COORD_LIMIT
    &&& 0 <= c.height <= COORD_LIMIT
}

/// What a sweep asks of the design: the window of a cell, where it may sit, and which placement
/// rules it would break. Cells are named by their index.
pub trait SweepRules {
    /// Whether the rules know cell `i`.
    spec fn knows(&self, i: int) -> bool;

    /// The reach and the rows of the window of cell `i` around `(x, y)`.
    spec fn window_of(&self, i: int, c: SweepCell, x: int, y: int) -> (int, int, Seq<i32>);

    /// Whether cell `i` may sit at `(x, y)`, congestion aside.
    spec fn seats(&self, i: int, c: SweepCell, x: int, y: int) -> bool;

    /// How many placement rules cell `i` would break at `(x, y)`.
    spec fn breaks(&self, i: int, c: SweepCell, x: int, y: int, b: Board) -> int;

    fn window(&self, i: usize, c: &SweepCell, x: i32, y: i32) -> (r: (i32, i32, Vec<i32>))
        requires
            self.knows(i as int),
            cell_ok(*c),
            near(x as int, y as int),
        ensures
            (r.0 as int, r.1 as int, r.2@) == self.window_of(i as int, *c, x as int, y as int),
            -COORD_LIMIT <= r.0,
            r.1 <= COORD_LIMIT,
    ;

    fn placeable(&self, i: usize, c: &SweepCell, x: i32, y: i32) -> (r: bool)
        requires
            self.knows(i as int),
            cell_ok(*c),
        ensures
            r == self.seats(i as int, *c, x as int, y as int),
            r ==> near(x as int, y as int),
    ;

    fn drc_violations(&self, i: usize, c: &SweepCell, x: i32, y: i32, grid: &NegGrid) -> (r: i32)
        requires
            self.knows(i as int),
            cell_ok(*c),
            near(x as int, y as int),
            grid.wf(),
        ensures
            r == self.breaks(i as int, *c, x as int, y as int, grid.board()),
            0 <= r,
    ;
}

/// Rules given as functions of a cell and a position: its window, where it may sit, and how many rules it
/// would break.
pub struct Rules<W, P, D> {
    pub window: W,
    pub placeable: P,
    pub drc: D,
}

impl<W: Fn(&SweepCell, i32, i32) -> (i32, i32, Vec<i32>), P: Fn(&SweepCell, i32, i32) -> bool, D: Fn(&SweepCell, i32, i32) -> i32> Rules<W, P, D> {
    /// The functions can be called, give one result for each input, and stay in range.
    pub open spec fn sound(&self) -> bool {
        &&& forall|c: SweepCell, x: i32, y: i32| #[trigger] self.window.requires((&c, x, y))
        &&& forall|c: SweepCell, x: i32, y: i32| #[trigger] self.placeable.requires((&c, x, y))
        &&& forall|c: SweepCell, x: i32, y: i32| #[trigger] self.drc.requires((&c, x, y))
        &&& forall|c: SweepCell, x: i32, y: i32, r: (i32, i32, Vec<i32>)| #[trigger] self.window.ensures((&c, x, y), r) ==>
            (r.0 as int, r.1 as int, r.2@) == self.window_at(c, x as int, y as int) && -COORD_LIMIT <= r.0 && r.1 <= COORD_LIMIT
        &&& forall|c: SweepCell, x: i32, y: i32, r: bool| #[trigger] self.placeable.ensures((&c, x, y), r) ==>
            r == self.seats_at(c, x as int, y as int) && (r ==> near(x as int, y as int))
        &&& forall|c: SweepCell, x: i32, y: i32, r: i32| #[trigger] self.drc.ensures((&c, x, y), r) ==>
            r == self.breaks_at(c, x as int, y as int) && 0 <= r
    }

    /// The window that the function gives.
    pub open spec fn window_at(&self, c: SweepCell, x: int, y: int) -> (int, int, Seq<i32>) {
        let r = choose|r: (i32, i32, Vec<i32>)| #[trigger] self.window.ensures((&c, x as i32, y as i32), r);
        (r.0 as int, r.1 as int, r.2@)
    }

    /// Whether the function lets a cell sit at a position.
    pub open spec fn seats_at(&self, c: SweepCell, x: int, y: int) -> bool {
        choose|r: bool| #[trigger] self.placeable.ensures((&c, x as i32, y as i32), r)
    }

    /// How many rules the function says are broken.
    pub open spec fn breaks_at(&self, c: SweepCell, x: int, y: int) -> int {
        (choose|r: i32| #[trigger] self.drc.ensures((&c, x as i32, y as i32), r)) as int
    }
}

impl<W: Fn(&SweepCell, i32, i32) -> (i32, i32, Vec<i32>), P: Fn(&SweepCell, i32, i32) -> bool, D: Fn(&SweepCell, i32, i32) -> i32> SweepRules for Rules<W, P, D> {
    open spec fn knows(&self, i: int) -> bool {
        self.sound()
    }

    open spec fn window_of(&self, i: int, c: SweepCell, x: int, y: int) -> (int, int, Seq<i32>) {
        self.window_at(c, x, y)
    }

    open spec fn seats(&self, i: int, c: SweepCell, x: int, y: int) -> bool {
        self.seats_at(c, x, y)
    }

    open spec fn breaks(&self, i: int, c: SweepCell, x: int, y: int, b: Board) -> int {
        self.breaks_at(c, x, y)
    }

    fn window(&self, i: usize, c: &SweepCell, x: i32, y: i32) -> (r: (i32, i32, Vec<i32>)) {
        (self.window)(c, x, y)
    }

    fn placeable(&self, i: usize, c: &SweepCell, x: i32, y: i32) -> (r: bool) {
        (self.placeable)(c, x, y)
    }

    fn drc_violations(&self, i: usize, c: &SweepCell, x: i32, y: i32, grid: &NegGrid) -> (r: i32) {
        (self.drc)(c, x, y)
    }
}

/// A fixed cell in the occupancy map: `(index, x, y, width, height)` in grid units.
pub type FixedPaint = (usize, i32, i32, i32, i32);

/// What one sweep needs besides the cells and the grid. Costs count millionths.
pub struct SweepCtx<'a, R: SweepRules> {
    pub rules: &'a R,
    /// Fixed cells, stamped again after every sweep.
    pub fixed_paint: &'a [FixedPaint],
    pub max_disp_multiplier: i64,
    pub max_disp_threshold: i64,
    pub drc_penalty: i64,
}

// ── footprints ───────────────────────────────────────────────────────────────────────────────

/// A square's claims, capacity and price, `None` off the board.
pub open spec fn square_of(b: Board, x: int, y: int) -> Option<(i32, i32, i64)> {
    if b.on(x, y) { Some((b.sq(x, y).usage, b.sq(x, y).capacity, b.sq(x, y).hist_cost)) } else { None }
}

/// The squares a cell of `w` by `h` at `(x, y)` covers, row after row.
pub open spec fn foot(b: Board, w: int, h: int, x: int, y: int) -> Seq<Option<(i32, i32, i64)>> {
    Seq::new((w * h) as nat, |k: int| square_of(b, x + k % w, y + k / w))
}

/// The overuse under a footprint, squares off the board aside.
pub open spec fn over_sum(fp: Seq<Option<(i32, i32, i64)>>) -> int
    decreases fp.len(),
{
    if fp.len() == 0 {
        0
    } else {
        (match fp[0] {
            Some((usage, _, _)) => imax(usage - 1, 0),
            None => 0,
        }) + over_sum(fp.skip(1))
    }
}

/// Every square exists, has capacity, and is claimed no more than it can serve.
pub open spec fn foot_legal(fp: Seq<Option<(i32, i32, i64)>>) -> bool {
    forall|k: int| 0 <= k < fp.len() ==> ((#[trigger] fp[k]) matches Some((usage, capacity, _)) && capacity > 0 && usage <= capacity)
}

/// A footprint has fewer squares than fit in 64 bits.
proof fn lemma_area(w: i32, h: i32)
    requires
        0 <= w,
        0 <= h,
    ensures
        0 <= w * h <= 0x4000_0000_0000_0000,
{
    assert(0 <= w * h <= 0x8000_0000 * 0x8000_0000) by (nonlinear_arith)
        requires 0 <= w <= 0x8000_0000, 0 <= h <= 0x8000_0000;
}

/// The `k`-th square of a footprint.
fn foot_square(grid: &NegGrid, w: i32, x: i32, y: i32, k: i64) -> (r: Option<(i32, i32, i64)>)
    requires
        grid.shape(),
        w > 0,
        0 <= k <= 0x4000_0000_0000_0000,
    ensures
        r == square_of(grid.board(), x + k as int % w as int, y + k as int / w as int),
{
    let gx: i64 = x as i64 + k % (w as i64);
    let gy: i64 = y as i64 + k / (w as i64);
    if gx < 0 || gy < 0 || gx >= grid.width as i64 || gy >= grid.height as i64 {
        return None;
    }
    let p = grid.at(gx as usize, gy as usize);
    Some((p.usage, p.capacity, p.hist_cost))
}

/// The overuse under a footprint.
fn footprint_overuse(grid: &NegGrid, w: i32, h: i32, x: i32, y: i32) -> (r: i128)
    requires
        grid.wf(),
        0 <= w,
        0 <= h,
    ensures
        r == over_sum(foot(grid.board(), w as int, h as int, x as int, y as int)),
        0 <= r <= 0x4000_0000_0000_0000 * 0x8000_0000,
{
    let ghost fp = foot(grid.board(), w as int, h as int, x as int, y as int);
    proof {
        lemma_area(w, h);
    }
    let n: i64 = w as i64 * h as i64;
    let mut total: i128 = 0;
    let mut k: i64 = 0;
    assert(fp.skip(0) =~= fp);
    while k < n
        invariant
            grid.wf(),
            0 <= w,
            0 <= k <= n,
            n == w * h,
            n <= 0x4000_0000_0000_0000,
            fp == foot(grid.board(), w as int, h as int, x as int, y as int),
            0 <= total <= k * 0x8000_0000,
            total + over_sum(fp.skip(k as int)) == over_sum(fp),
        decreases n - k,
    {
        proof {
            assert(w > 0) by (nonlinear_arith)
                requires w >= 0, w * h > 0;
            assert(fp.skip(k as int)[0] == fp[k as int]);
            assert(fp.skip(k as int).skip(1) =~= fp.skip(k + 1));
        }
        let sq = foot_square(grid, w, x, y, k);
        assert(sq == fp[k as int]);
        if let Some((usage, _, _)) = sq {
            if usage as i64 - 1 > 0 {
                total = total + (usage as i128 - 1);
            }
        }
        k = k + 1;
    }
    assert(fp.skip(k as int) =~= Seq::empty());
    total
}

/// Every square of the footprint has capacity and no overuse.
pub fn footprint_is_legal(grid: &NegGrid, w: i32, h: i32, x: i32, y: i32) -> (r: bool)
    requires
        grid.wf(),
        0 <= w,
        0 <= h,
    ensures
        r == foot_legal(foot(grid.board(), w as int, h as int, x as int, y as int)),
{
    let ghost fp = foot(grid.board(), w as int, h as int, x as int, y as int);
    proof {
        lemma_area(w, h);
    }
    let n: i64 = w as i64 * h as i64;
    let mut k: i64 = 0;
    while k < n
        invariant
            grid.wf(),
            0 <= w,
            0 <= k <= n,
            n == w * h,
            n <= 0x4000_0000_0000_0000,
            fp == foot(grid.board(), w as int, h as int, x as int, y as int),
            forall|j: int| 0 <= j < k ==> ((#[trigger] fp[j]) matches Some((usage, capacity, _)) && capacity > 0 && usage <= capacity),
        decreases n - k,
    {
        proof {
            assert(w > 0) by (nonlinear_arith)
                requires w >= 0, w * h > 0;
        }
        let sq = foot_square(grid, w, x, y, k);
        assert(sq == fp[k as int]);
        let ok: bool = match sq {
            None => false,
            Some((usage, capacity, _)) => capacity > 0 && usage <= capacity,
        };
        if !ok {
            assert(!foot_legal(fp));
            return false;
        }
        k = k + 1;
    }
    true
}

/// A footprint's cost on top of `target`, given up once it passes `bound`.
fn footprint_cost(grid: &NegGrid, w: i32, h: i32, x: i32, y: i32, target: i128, bound: i128) -> (r: i128)
    requires
        grid.wf(),
        0 <= w,
        0 <= h,
        bound <= COST_LIMIT,
        forall|a: int, c: int| #![trigger square_of(grid.board(), a, c)] square_ok(square_of(grid.board(), a, c)),
    ensures
        r == scan_cost(foot(grid.board(), w as int, h as int, x as int, y as int), target as int, bound as int),
{
    let ghost fp = foot(grid.board(), w as int, h as int, x as int, y as int);
    let mut cost: i128 = target;
    if cost > bound {
        return cost;
    }
    proof {
        lemma_area(w, h);
    }
    let n: i64 = w as i64 * h as i64;
    let mut k: i64 = 0;
    assert(fp.skip(0) =~= fp);
    while k < n
        invariant
            grid.wf(),
            0 <= w,
            0 <= k <= n,
            n == w * h,
            n <= 0x4000_0000_0000_0000,
            fp == foot(grid.board(), w as int, h as int, x as int, y as int),
            bound <= COST_LIMIT,
            cost <= bound,
            forall|a: int, c: int| #![trigger square_of(grid.board(), a, c)] square_ok(square_of(grid.board(), a, c)),
            scan_cost(fp.skip(k as int), cost as int, bound as int) == scan_cost(fp, target as int, bound as int),
        decreases n - k,
    {
        proof {
            assert(w > 0) by (nonlinear_arith)
                requires w >= 0, w * h > 0;
            assert(fp.skip(k as int)[0] == fp[k as int]);
            assert(fp.skip(k as int).skip(1) =~= fp.skip(k + 1));
        }
        let sq = foot_square(grid, w, x, y, k);
        assert(sq == fp[k as int]);
        assert(square_ok(sq));
        match sq {
            None => return cost + INF_COST,
            Some((usage, capacity, hist)) => {
                if capacity == 0 {
                    return cost + INF_COST;
                }
                cost = cost + square_cost_at(usage, hist);
                if cost > bound {
                    assert(scan_cost(fp.skip(k + 1), cost as int, bound as int) == cost);
                    return cost;
                }
            },
        }
        k = k + 1;
    }
    assert(fp.skip(k as int) =~= Seq::empty());
    cost
}

// ── claims ───────────────────────────────────────────────────────────────────────────────────

/// Whether a cell covers a square.
pub open spec fn covers(c: SweepCell, gx: int, gy: int) -> bool {
    in_foot(c.x as int, c.y as int, c.width as int, c.height as int, gx, gy)
}

/// How many of the first `n` cells, cell `skip` aside, cover a square.
pub open spec fn claims(cells: Seq<SweepCell>, n: int, skip: int, gx: int, gy: int) -> int
    decreases n,
{
    if n <= 0 {
        0
    } else {
        claims(cells, n - 1, skip, gx, gy) + (if n - 1 != skip && covers(cells[n - 1], gx, gy) { 1int } else { 0int })
    }
}

/// The board counts the cells' claims, cell `skip` aside: exactly where a square is usable, and up
/// to a constant where a fixed cell has taken it.
pub open spec fn claimed(cells: Seq<SweepCell>, skip: int, b: Board) -> bool {
    forall|gx: int, gy: int| #![trigger b.sq(gx, gy)] b.on(gx, gy) ==> {
        let d = b.sq(gx, gy).usage - claims(cells, cells.len() as int, skip, gx, gy);
        if b.sq(gx, gy).capacity == 0 { -(cells.len() as int) <= d <= 1 } else { d == 0 }
    }
}

pub proof fn lemma_claims_bound(cells: Seq<SweepCell>, n: int, skip: int, gx: int, gy: int)
    requires
        0 <= n,
    ensures
        0 <= claims(cells, n, skip, gx, gy) <= n,
    decreases n,
{
    if n > 0 {
        lemma_claims_bound(cells, n - 1, skip, gx, gy);
    }
}

/// Leaving a cell out takes its claim away.
pub proof fn lemma_claims_skip(cells: Seq<SweepCell>, n: int, i: int, gx: int, gy: int)
    requires
        0 <= i,
        0 <= n <= cells.len(),
    ensures
        claims(cells, n, -1, gx, gy) == claims(cells, n, i, gx, gy) + (if i < n && covers(cells[i], gx, gy) { 1int } else { 0int }),
    decreases n,
{
    if n > 0 {
        lemma_claims_skip(cells, n - 1, i, gx, gy);
    }
}

/// Moving the cell that is left out changes no count.
pub proof fn lemma_claims_move(cells: Seq<SweepCell>, n: int, i: int, c: SweepCell, gx: int, gy: int)
    requires
        0 <= i < cells.len(),
        0 <= n <= cells.len(),
    ensures
        claims(cells.update(i, c), n, i, gx, gy) == claims(cells, n, i, gx, gy),
    decreases n,
{
    if n > 0 {
        lemma_claims_move(cells, n - 1, i, c, gx, gy);
    }
}

// ── one cell ─────────────────────────────────────────────────────────────────────────────────

/// The cheapest place found so far.
pub struct Best {
    pub cost: int,
    pub rank: ScanRank,
    pub x: i32,
    pub y: i32,
}

/// The cells and the board during a sweep.
pub struct Sweep {
    pub cells: Seq<SweepCell>,
    pub board: Board,
}

impl<'a, R: SweepRules> SweepCtx<'a, R> {
    /// The context's numbers are in range.
    pub open spec fn ok(&self) -> bool {
        &&& 0 <= self.max_disp_multiplier
        &&& -0x4000_0000_0000_0000 <= self.max_disp_threshold
        &&& 0 <= self.drc_penalty
    }

    /// Whether cell `i` is legal where it is.
    pub open spec fn legal(&self, i: int, c: SweepCell, b: Board) -> bool {
        &&& self.rules.seats(i, c, c.x as int, c.y as int)
        &&& self.rules.breaks(i, c, c.x as int, c.y as int, b) <= 0
        &&& foot_legal(foot(b, c.width as int, c.height as int, c.x as int, c.y as int))
    }

    /// The displacements that no candidate can win at: their cost floor passes the unusable cost.
    pub open spec fn hopeless(&self, c: SweepCell) -> spec_fn(int) -> bool {
        |d: int| disp_cost(d, self.max_disp_multiplier as int, self.max_disp_threshold as int) + COST_UNIT * (c.width * c.height) > INF_COST
    }

    /// The candidates for a cell, in the order in which they are tried.
    pub open spec fn candidates(&self, i: int, c: SweepCell) -> Seq<Candidate> {
        let (ilo, ihi, irows) = self.rules.window_of(i, c, c.init_x as int, c.init_y as int);
        let (clo, chi, crows) = self.rules.window_of(i, c, c.x as int, c.y as int);
        Seq::<Candidate>::empty()
            + (Scan { x: c.init_x as int, y: c.init_y as int, rows: irows, dx_lo: ilo, dx_hi: ihi }).waves(self.hopeless(c), 0)
            + if c.x == c.init_x && c.y == c.init_y {
                Seq::empty()
            } else {
                (Scan { x: c.x as int, y: c.y as int, rows: crows, dx_lo: clo, dx_hi: chi }).full_from(0)
            }
    }

    /// The better of the best place so far and a candidate. A candidate wins by cost, then by rank;
    /// broken placement rules cost extra.
    pub open spec fn weigh(&self, i: int, c: SweepCell, b: Board, penalty: int, best: Best, cand: Candidate) -> Best {
        if !self.rules.seats(i, c, cand.x as int, cand.y as int) {
            best
        } else {
            let target = disp_cost(displacement(cand.x as int, cand.y as int, c.init_x as int, c.init_y as int), self.max_disp_multiplier as int, self.max_disp_threshold as int);
            let cost = scan_cost(foot(b, c.width as int, c.height as int, cand.x as int, cand.y as int), target, best.cost);
            if cost > best.cost || (cost == best.cost && !rank_less(cand.rank, best.rank)) {
                best
            } else {
                let full = cost + penalty * self.rules.breaks(i, c, cand.x as int, cand.y as int, b);
                if full < best.cost || (full == best.cost && rank_less(cand.rank, best.rank)) {
                    Best { cost: full, rank: cand.rank, x: cand.x, y: cand.y }
                } else {
                    best
                }
            }
        }
    }

    /// The best of the candidates from `k` on and the best place so far.
    pub open spec fn pick(&self, i: int, c: SweepCell, b: Board, penalty: int, best: Best, cands: Seq<Candidate>, k: int) -> Best
        decreases cands.len() - k,
    {
        if k >= cands.len() {
            best
        } else {
            self.pick(i, c, b, penalty, self.weigh(i, c, b, penalty, best, cands[k]), cands, k + 1)
        }
    }

    /// Staying put, at the unusable cost.
    pub open spec fn stay(&self, c: SweepCell) -> Best {
        Best { cost: INF_COST as int, rank: ScanRank { window: 0, row_pos: usize::MAX, dx: i32::MAX }, x: c.x, y: c.y }
    }

    /// The board with cell `i` ripped up.
    pub open spec fn ripped(&self, i: int, c: SweepCell, b: Board) -> Board {
        b.stamp(c.x as int, c.y as int, c.width as int, c.height as int, NegStamp::Erase(i as usize))
            .stamp(c.x as int, c.y as int, c.width as int, c.height as int, NegStamp::Claim(-1i32))
    }

    /// One cell's turn in sweep `iter`.
    pub open spec fn visit(&self, s: Sweep, i: int, iter: int) -> Sweep {
        let c = s.cells[i];
        if c.fixed || (iter >= ISOLATION_PT && self.legal(i, c, s.board)) {
            s
        } else {
            let b = self.ripped(i, c, s.board);
            let best = self.pick(i, c, b, self.drc_penalty * (1 + iter), self.stay(c), self.candidates(i, c), 0);
            Sweep {
                cells: s.cells.update(i, SweepCell { x: best.x, y: best.y, ..c }),
                board: b.stamp(best.x as int, best.y as int, c.width as int, c.height as int, NegStamp::Claim(1i32))
                    .stamp(best.x as int, best.y as int, c.width as int, c.height as int, NegStamp::Paint(i as usize)),
            }
        }
    }

    /// The turns of the cells named by `keys`, from `k` on.
    pub open spec fn visit_all(&self, s: Sweep, keys: Seq<SortKey>, k: int, iter: int) -> Sweep
        decreases keys.len() - k,
    {
        if k >= keys.len() {
            s
        } else {
            self.visit_all(self.visit(s, keys[k].idx as int, iter), keys, k + 1, iter)
        }
    }
}

/// Two lists of the same cells, in other places at most.
pub open spec fn kin(a: Seq<SweepCell>, b: Seq<SweepCell>) -> bool {
    &&& a.len() == b.len()
    &&& forall|i: int| 0 <= i < a.len() ==> #[trigger] a[i] == (SweepCell { x: a[i].x, y: a[i].y, ..b[i] })
}

/// Two boards of the same size with the same capacities.
pub open spec fn same_capacity(a: Board, b: Board) -> bool {
    &&& a.width == b.width
    &&& a.height == b.height
    &&& a.pixels.len() == b.pixels.len()
    &&& forall|k: int| 0 <= k < a.pixels.len() ==> (#[trigger] a.pixels[k]).capacity == b.pixels[k].capacity
}

/// A cell's turn moves no other cell, changes nothing of it but its place, and takes no capacity away.
proof fn lemma_visit_keeps<'a, R: SweepRules>(ctx: SweepCtx<'a, R>, s: Sweep, i: int, iter: int)
    requires
        0 <= i < s.cells.len(),
    ensures
        kin(ctx.visit(s, i, iter).cells, s.cells),
        same_capacity(ctx.visit(s, i, iter).board, s.board),
{
}

/// No price passes `m`.
pub open spec fn priced_to(b: Board, m: int) -> bool {
    forall|gx: int, gy: int| #![trigger b.sq(gx, gy)] b.on(gx, gy) ==> 1 <= b.sq(gx, gy).hist_cost <= m
}

/// Prices stay within this bound, which no run of sweeps passes.
pub const PRICE_LIMIT: i64 = 0x1000_0000_0000;

/// Prices that leave room for one more sweep.
pub open spec fn priced(b: Board) -> bool {
    priced_to(b, PRICE_LIMIT as int)
}

/// Two boards of the same size with the same prices.
pub open spec fn same_prices(a: Board, b: Board) -> bool {
    &&& a.width == b.width
    &&& a.height == b.height
    &&& forall|gx: int, gy: int| #![trigger a.sq(gx, gy)] b.on(gx, gy) ==> a.sq(gx, gy).hist_cost == b.sq(gx, gy).hist_cost
}

/// Everything a sweep relies on.
pub open spec fn sweep_ok<R: SweepRules>(ctx: &SweepCtx<R>, cells: Seq<SweepCell>, g: NegGrid) -> bool {
    &&& ctx.ok()
    &&& g.wf()
    &&& cells.len() <= CELL_LIMIT
    &&& forall|i: int| 0 <= i < cells.len() ==> cell_ok(#[trigger] cells[i])
    &&& forall|i: int| 0 <= i < cells.len() ==> #[trigger] ctx.rules.knows(i)
    &&& claimed(cells, -1, g.board())
    &&& priced(g.board())
}

/// A board in which claims are counted and prices are in range has affordable squares.
proof fn lemma_squares_ok(cells: Seq<SweepCell>, skip: int, g: NegGrid)
    requires
        g.wf(),
        cells.len() <= CELL_LIMIT,
        claimed(cells, skip, g.board()),
        priced(g.board()),
    ensures
        forall|a: int, c: int| #![trigger square_of(g.board(), a, c)] square_ok(square_of(g.board(), a, c)),
{
    assert forall|a: int, c: int| #![trigger square_of(g.board(), a, c)] square_ok(square_of(g.board(), a, c)) by {
        if g.board().on(a, c) {
            let p = g.board().sq(a, c);
            assert(g.on(a, c));
            assert(g.sq(a, c) == p);
            lemma_claims_bound(cells, cells.len() as int, skip, a, c);
            if p.capacity != 0 {
                assert(p.usage >= 0);
            }
        }
    }
}

/// What a stamp that leaves capacities and prices alone does to the counting of claims.
proof fn lemma_stamp_claims(cells: Seq<SweepCell>, skip: int, cells2: Seq<SweepCell>, skip2: int, g: NegGrid, g2: NegGrid, x: int, y: int, w: int, h: int, s: NegStamp)
    requires
        g.wf(),
        g2.wf(),
        g2.is_neg_stamped(g, x, y, w, h, s),
        !(s is Blockade),
        cells.len() == cells2.len(),
        cells.len() <= CELL_LIMIT,
        claimed(cells, skip, g.board()),
        priced(g.board()),
        forall|gx: int, gy: int| #![trigger g.sq(gx, gy)] g.on(gx, gy) ==>
            claims(cells2, cells.len() as int, skip2, gx, gy) - claims(cells, cells.len() as int, skip, gx, gy)
                == (if in_foot(x, y, w, h, gx, gy) { neg_stamped(g.sq(gx, gy), s).usage - g.sq(gx, gy).usage } else { 0 }),
    ensures
        claimed(cells2, skip2, g2.board()),
        priced(g2.board()),
        same_prices(g2.board(), g.board()),
{
    assert forall|gx: int, gy: int| #![trigger g2.board().sq(gx, gy)] g2.board().on(gx, gy) implies {
        let d = g2.board().sq(gx, gy).usage - claims(cells2, cells2.len() as int, skip2, gx, gy);
        &&& if g2.board().sq(gx, gy).capacity == 0 { -(cells2.len() as int) <= d <= 1 } else { d == 0 }
        &&& 1 <= g2.board().sq(gx, gy).hist_cost <= PRICE_LIMIT
        &&& g2.board().sq(gx, gy).hist_cost == g.board().sq(gx, gy).hist_cost
    } by {
        assert(g.on(gx, gy));
        assert(g2.sq(gx, gy) == g2.board().sq(gx, gy));
        assert(g.sq(gx, gy) == g.board().sq(gx, gy));
    }
}

impl<'a, R: SweepRules> SweepCtx<'a, R> {
    /// Is cell `i` legal where it is: may it sit there, does it break no rule, is its footprint its
    /// own?
    pub fn cell_is_legal(&self, i: usize, c: &SweepCell, grid: &NegGrid) -> (r: bool)
        requires
            self.rules.knows(i as int),
            cell_ok(*c),
            grid.wf(),
        ensures
            r == self.legal(i as int, *c, grid.board()),
    {
        if !self.rules.placeable(i, c, c.x, c.y) || self.rules.drc_violations(i, c, c.x, c.y, grid) > 0 {
            return false;
        }
        footprint_is_legal(grid, c.width, c.height, c.x, c.y)
    }

    /// The best place for a ripped-up cell among its candidates.
    fn find_best(&self, i: usize, c: &SweepCell, grid: &NegGrid, iter: i32, cands: &Vec<Candidate>) -> (r: (i32, i32))
        requires
            self.ok(),
            self.rules.knows(i as int),
            cell_ok(*c),
            grid.wf(),
            0 <= iter,
            forall|a: int, d: int| #![trigger square_of(grid.board(), a, d)] square_ok(square_of(grid.board(), a, d)),
        ensures
            ({
                let best = self.pick(i as int, *c, grid.board(), self.drc_penalty * (1 + iter), self.stay(*c), cands@, 0);
                r == (best.x, best.y)
            }),
            near(r.0 as int, r.1 as int),
    {
        proof {
            assert(0 <= self.drc_penalty * (1 + iter) <= 0x8000_0000_0000_0000 * 0x8000_0000) by (nonlinear_arith)
                requires 0 <= self.drc_penalty <= 0x8000_0000_0000_0000, 0 <= iter <= 0x7fff_ffff;
        }
        let penalty: i128 = self.drc_penalty as i128 * (1 + iter as i128);
        let mut cost: i128 = INF_COST;
        let mut rank = ScanRank { window: 0, row_pos: usize::MAX, dx: i32::MAX };
        let mut x: i32 = c.x;
        let mut y: i32 = c.y;
        let mut k: usize = 0;
        let ghost b = grid.board();
        while k < cands.len()
            invariant
                self.ok(),
                self.rules.knows(i as int),
                cell_ok(*c),
                grid.wf(),
                b == grid.board(),
                0 <= penalty <= 0x8000_0000_0000_0000 * 0x8000_0000,
                penalty == self.drc_penalty * (1 + iter),
                forall|a: int, d: int| #![trigger square_of(grid.board(), a, d)] square_ok(square_of(grid.board(), a, d)),
                k <= cands@.len(),
                cost <= INF_COST,
                near(x as int, y as int),
                self.pick(i as int, *c, b, penalty as int, Best { cost: cost as int, rank, x, y }, cands@, k as int)
                    == self.pick(i as int, *c, b, penalty as int, self.stay(*c), cands@, 0),
            decreases cands@.len() - k,
        {
            let ghost best = Best { cost: cost as int, rank, x, y };
            let cand = cands[k];
            if self.rules.placeable(i, c, cand.x, cand.y) {
                let target: i128 = target_cost(cand.x, cand.y, c.init_x, c.init_y, self.max_disp_multiplier, self.max_disp_threshold);
                let base: i128 = footprint_cost(grid, c.width, c.height, cand.x, cand.y, target, cost);
                if base > cost || (base == cost && !rank_before(&cand.rank, &rank)) {
                } else {
                    let broken: i32 = self.rules.drc_violations(i, c, cand.x, cand.y, grid);
                    proof {
                        assert(0 <= penalty * broken <= 0x8000_0000_0000_0000 * 0x8000_0000 * 0x8000_0000) by (nonlinear_arith)
                            requires 0 <= penalty <= 0x8000_0000_0000_0000 * 0x8000_0000, 0 <= broken <= 0x8000_0000;
                    }
                    let full: i128 = base + penalty * broken as i128;
                    if full < cost || (full == cost && rank_before(&cand.rank, &rank)) {
                        cost = full;
                        rank = cand.rank;
                        x = cand.x;
                        y = cand.y;
                    }
                }
            }
            assert(self.weigh(i as int, *c, b, penalty as int, best, cands@[k as int]) == (Best { cost: cost as int, rank, x, y }));
            k = k + 1;
        }
        (x, y)
    }
}

impl<'a, R: SweepRules> SweepCtx<'a, R> {
    /// One cell's turn: unless it is fixed or, from the isolation point on, already legal, rip it
    /// up, find its best place and put it there.
    fn visit_cell(&self, cells: &mut [SweepCell], i: usize, iter: i32, grid: &mut NegGrid, cands: &mut Vec<Candidate>)
        requires
            sweep_ok(self, old(cells)@, *old(grid)),
            i < old(cells)@.len(),
            0 <= iter,
        ensures
            sweep_ok(self, final(cells)@, *final(grid)),
            (Sweep { cells: final(cells)@, board: final(grid).board() })
                == self.visit(Sweep { cells: old(cells)@, board: old(grid).board() }, i as int, iter as int),
            final(grid).row_sites == old(grid).row_sites,
            same_prices(final(grid).board(), old(grid).board()),
            final(cells)@.len() == old(cells)@.len(),
    {
        if cells[i].fixed {
            return;
        }
        if iter >= ISOLATION_PT && self.cell_is_legal(i, &cells[i], grid) {
            return;
        }
        let ghost cells0 = cells@;
        let ghost c = cells@[i as int];
        let ghost n = cells@.len() as int;
        let ghost g0 = *grid;
        assert(cell_ok(c));
        let (x, y, w, h) = (cells[i].x, cells[i].y, cells[i].width, cells[i].height);
        let (init_x, init_y) = (cells[i].init_x, cells[i].init_y);
        grid.erase_cell(i, x, y, w, h);
        let ghost g1 = *grid;
        proof {
            lemma_stamp_claims(cells0, -1, cells0, -1, g0, g1, x as int, y as int, w as int, h as int, NegStamp::Erase(i));
            assert forall|gx: int, gy: int| #![trigger g1.sq(gx, gy)] g1.on(gx, gy) implies
                i32::MIN < g1.sq(gx, gy).usage - 1 <= i32::MAX by {
                assert(g1.sq(gx, gy) == g1.board().sq(gx, gy));
                lemma_claims_bound(cells0, n, -1, gx, gy);
            }
        }
        grid.add_usage(x, y, w, h, -1);
        let ghost g2 = *grid;
        proof {
            assert forall|gx: int, gy: int| #![trigger g1.sq(gx, gy)] g1.on(gx, gy) implies
                claims(cells0, n, i as int, gx, gy) - claims(cells0, n, -1, gx, gy)
                    == (if in_foot(x as int, y as int, w as int, h as int, gx, gy) { neg_stamped(g1.sq(gx, gy), NegStamp::Claim(-1i32)).usage - g1.sq(gx, gy).usage } else { 0 }) by {
                lemma_claims_skip(cells0, n, i as int, gx, gy);
                assert(g1.sq(gx, gy) == g1.board().sq(gx, gy));
                lemma_claims_bound(cells0, n, -1, gx, gy);
            }
            lemma_stamp_claims(cells0, -1, cells0, i as int, g1, g2, x as int, y as int, w as int, h as int, NegStamp::Claim(-1i32));
            lemma_squares_ok(cells0, i as int, g2);
            assert(g2.board() == self.ripped(i as int, c, g0.board()));
        }
        let (ilo, ihi, irows) = self.rules.window(i, &cells[i], init_x, init_y);
        let (clo, chi, crows) = if x != init_x || y != init_y {
            self.rules.window(i, &cells[i], x, y)
        } else {
            (0, 0, Vec::new())
        };
        let m: i64 = self.max_disp_multiplier;
        let t: i64 = self.max_disp_threshold;
        let ghost hopeless = self.hopeless(c);
        proof {
            lemma_area(w, h);
        }
        let floor: i128 = COST_UNIT * (w as i128 * h as i128);
        let prune = |d: i64| -> (r: bool)
            requires
                0 <= m,
                -0x4000_0000_0000_0000 <= t,
                0 <= floor <= 0x4000_0000_0000_0000 * 1000000,
            ensures
                r == (disp_cost(d as int, m as int, t as int) + floor > INF_COST),
            { floor_passed(d, m, t, floor) };
        cands.clear();
        enumerate_candidates(init_x, init_y, x, y, &irows, ilo, ihi, &crows, clo, chi, &prune, cands);
        proof {
            assert(agrees_wide(prune, hopeless));
            assert(cands@ =~= self.candidates(i as int, c));
        }
        let (bx, by) = self.find_best(i, &cells[i], grid, iter, cands);
        let ghost c2 = SweepCell { x: bx, y: by, ..c };
        cells[i].x = bx;
        cells[i].y = by;
        assert(cells@ =~= cells0.update(i as int, c2));
        proof {
            assert forall|gx: int, gy: int| #![trigger g2.sq(gx, gy)] g2.on(gx, gy) implies
                i32::MIN < g2.sq(gx, gy).usage + 1 <= i32::MAX by {
                assert(g2.sq(gx, gy) == g2.board().sq(gx, gy));
                lemma_claims_bound(cells0, n, i as int, gx, gy);
            }
        }
        grid.add_usage(bx, by, w, h, 1);
        let ghost g3 = *grid;
        proof {
            assert forall|gx: int, gy: int| #![trigger g2.sq(gx, gy)] g2.on(gx, gy) implies
                claims(cells@, n, -1, gx, gy) - claims(cells0, n, i as int, gx, gy)
                    == (if in_foot(bx as int, by as int, w as int, h as int, gx, gy) { neg_stamped(g2.sq(gx, gy), NegStamp::Claim(1i32)).usage - g2.sq(gx, gy).usage } else { 0 }) by {
                lemma_claims_skip(cells@, n, i as int, gx, gy);
                lemma_claims_move(cells0, n, i as int, c2, gx, gy);
                assert(g2.sq(gx, gy) == g2.board().sq(gx, gy));
                lemma_claims_bound(cells0, n, i as int, gx, gy);
            }
            lemma_stamp_claims(cells0, i as int, cells@, -1, g2, g3, bx as int, by as int, w as int, h as int, NegStamp::Claim(1i32));
        }
        grid.paint_cell(i, bx, by, w, h);
        proof {
            lemma_stamp_claims(cells@, -1, cells@, -1, g3, *grid, bx as int, by as int, w as int, h as int, NegStamp::Paint(i));
        }
    }
}

/// Does a displacement's cost floor pass the unusable cost?
fn floor_passed(d: i64, m: i64, t: i64, floor: i128) -> (r: bool)
    requires
        0 <= m,
        -0x4000_0000_0000_0000 <= t,
        0 <= floor <= 0x4000_0000_0000_0000 * 1000000,
    ensures
        r == (disp_cost(d as int, m as int, t as int) + floor > INF_COST),
{
    if d > 0x3fff_ffff_ffff_ffff {
        proof {
            let e = imax(d - t, 0);
            assert(m * e >= 0) by (nonlinear_arith)
                requires m >= 0, e >= 0;
        }
        return true;
    }
    if d < -0x4000_0000_0000_0000 {
        proof {
            assert(imax(d - t, 0) == 0);
            assert(m * 0 == 0) by (nonlinear_arith);
        }
        return COST_UNIT * d as i128 + floor > INF_COST;
    }
    if t > 0x3fff_ffff_ffff_ffff {
        proof {
            assert(imax(d - t, 0) == 0);
            assert(m * 0 == 0) by (nonlinear_arith);
        }
        return COST_UNIT * d as i128 + floor > INF_COST;
    }
    proof {
        let e = imax(d - t, 0);
        assert(0 <= m * e <= 0x8000_0000_0000_0000 * 0x8000_0000_0000_0000) by (nonlinear_arith)
            requires 0 <= m <= 0x8000_0000_0000_0000, 0 <= e <= 0x8000_0000_0000_0000;
    }
    target_cost_from_disp(d, m, t) + floor > INF_COST
}

// ── the whole sweep ──────────────────────────────────────────────────────────────────────────

/// The board with the first `n` cells' stamps cleared.
pub open spec fn cleared(b: Board, cells: Seq<SweepCell>, n: int) -> Board
    decreases n,
{
    if n <= 0 {
        b
    } else {
        let c = cells[n - 1];
        cleared(b, cells, n - 1).stamp(c.x as int, c.y as int, c.width as int, c.height as int, NegStamp::Erase((n - 1) as usize))
    }
}

/// The board with the first `n` cells stamped.
pub open spec fn painted(b: Board, cells: Seq<SweepCell>, n: int) -> Board
    decreases n,
{
    if n <= 0 {
        b
    } else {
        let c = cells[n - 1];
        painted(b, cells, n - 1).stamp(c.x as int, c.y as int, c.width as int, c.height as int, NegStamp::Paint((n - 1) as usize))
    }
}

/// The board with the first `n` fixed cells stamped.
pub open spec fn fixed_painted(b: Board, fixed: Seq<FixedPaint>, n: int) -> Board
    decreases n,
{
    if n <= 0 {
        b
    } else {
        let f = fixed[n - 1];
        fixed_painted(b, fixed, n - 1).stamp(f.1 as int, f.2 as int, f.3 as int, f.4 as int, NegStamp::Paint(f.0))
    }
}

/// The board with every stamp renewed: all cells cleared, all cells stamped, fixed cells last.
pub open spec fn synced(b: Board, cells: Seq<SweepCell>, fixed: Seq<FixedPaint>) -> Board {
    fixed_painted(painted(cleared(b, cells, cells.len() as int), cells, cells.len() as int), fixed, fixed.len() as int)
}

/// Stamping alone changes neither claims nor prices.
pub open spec fn same_numbers(a: Board, b: Board) -> bool {
    &&& a.width == b.width
    &&& a.height == b.height
    &&& a.pixels.len() == b.pixels.len()
    &&& forall|k: int| 0 <= k < a.pixels.len() ==> {
        &&& (#[trigger] a.pixels[k]).usage == b.pixels[k].usage
        &&& a.pixels[k].hist_cost == b.pixels[k].hist_cost
        &&& a.pixels[k].capacity == b.pixels[k].capacity
    }
}

/// Renew every stamp: clear all cells, stamp them all, then stamp the fixed cells, so that a square
/// shared by several cells is not left blank and a fixed cell is never painted over.
pub fn sync_all_cells_to_grid(cells: &[SweepCell], fixed: &[FixedPaint], grid: &mut NegGrid)
    requires
        old(grid).wf(),
    ensures
        final(grid).wf(),
        final(grid).row_sites == old(grid).row_sites,
        final(grid).board() == synced(old(grid).board(), cells@, fixed@),
        same_numbers(final(grid).board(), old(grid).board()),
{
    let ghost b0 = grid.board();
    let mut i: usize = 0;
    while i < cells.len()
        invariant
            i <= cells@.len(),
            grid.wf(),
            grid.row_sites == old(grid).row_sites,
            grid.board() == cleared(b0, cells@, i as int),
            same_numbers(grid.board(), b0),
        decreases cells@.len() - i,
    {
        let c = &cells[i];
        grid.erase_cell(i, c.x, c.y, c.width, c.height);
        i = i + 1;
    }
    let ghost b1 = grid.board();
    i = 0;
    while i < cells.len()
        invariant
            i <= cells@.len(),
            grid.wf(),
            grid.row_sites == old(grid).row_sites,
            grid.board() == painted(b1, cells@, i as int),
            same_numbers(grid.board(), b0),
        decreases cells@.len() - i,
    {
        let c = &cells[i];
        grid.paint_cell(i, c.x, c.y, c.width, c.height);
        i = i + 1;
    }
    let ghost b2 = grid.board();
    i = 0;
    while i < fixed.len()
        invariant
            i <= fixed@.len(),
            grid.wf(),
            grid.row_sites == old(grid).row_sites,
            grid.board() == fixed_painted(b2, fixed@, i as int),
            same_numbers(grid.board(), b0),
        decreases fixed@.len() - i,
    {
        let (idx, x, y, w, h) = fixed[i];
        grid.paint_cell(idx, x, y, w, h);
        i = i + 1;
    }
}

/// The key a cell is ordered by.
pub open spec fn key_of(cells: Seq<SweepCell>, b: Board, i: int) -> SortKey {
    let c = cells[i];
    SortKey {
        overuse: over_sum(foot(b, c.width as int, c.height as int, c.x as int, c.y as int)) as i128,
        height: c.height,
        width: c.width,
        idx: i as usize,
    }
}

/// The keys of the active cells.
pub open spec fn keys_of(cells: Seq<SweepCell>, b: Board, active: Seq<usize>) -> Seq<SortKey> {
    Seq::new(active.len(), |k: int| key_of(cells, b, active[k] as int))
}

/// Whether `keys` are the active cells' keys in the order of the sweep.
pub open spec fn is_sweep_order(cells: Seq<SweepCell>, b: Board, active: Seq<usize>, keys: Seq<SortKey>) -> bool {
    in_order(keys) && keys.to_multiset() == keys_of(cells, b, active).to_multiset()
}

/// The order of a sweep.
pub open spec fn sweep_order(cells: Seq<SweepCell>, b: Board, active: Seq<usize>) -> Seq<SortKey> {
    choose|keys: Seq<SortKey>| is_sweep_order(cells, b, active, keys)
}

/// The order of a sweep does not depend on how the active set is listed.
pub proof fn law_sweep_order_determined(cells: Seq<SweepCell>, b: Board, active: Seq<usize>, keys: Seq<SortKey>)
    requires
        is_sweep_order(cells, b, active, keys),
    ensures
        keys == sweep_order(cells, b, active),
{
    lemma_ascending_unique(Natural, keys, sweep_order(cells, b, active));
}

impl<'a, R: SweepRules> SweepCtx<'a, R> {
    /// The violations of the active cells from `k` on: each one's overuse, and one more where it is
    /// not legal. Fixed cells do not count.
    pub open spec fn active_violations(&self, cells: Seq<SweepCell>, b: Board, active: Seq<usize>, k: int) -> int
        decreases active.len() - k,
    {
        if k >= active.len() {
            0
        } else {
            let i = active[k] as int;
            let c = cells[i];
            (if c.fixed {
                0
            } else {
                over_sum(foot(b, c.width as int, c.height as int, c.x as int, c.y as int)) + (if self.legal(i, c, b) { 0int } else { 1int })
            }) + self.active_violations(cells, b, active, k + 1)
        }
    }

    /// The cells from `i` on that are neither fixed nor active nor legal.
    pub open spec fn bystanders(&self, cells: Seq<SweepCell>, b: Board, active: Seq<usize>, i: int) -> Seq<usize>
        decreases cells.len() - i,
    {
        if i >= cells.len() {
            Seq::empty()
        } else if !cells[i].fixed && !active.contains(i as usize) && !self.legal(i, cells[i], b) {
            seq![i as usize] + self.bystanders(cells, b, active, i + 1)
        } else {
            self.bystanders(cells, b, active, i + 1)
        }
    }

    /// The cells and the board when the sweep has visited everyone and renewed the stamps.
    pub open spec fn settled(&self, cells: Seq<SweepCell>, b: Board, active: Seq<usize>, iter: int) -> Sweep {
        let s = self.visit_all(Sweep { cells, board: b }, sweep_order(cells, b, active), 0, iter);
        Sweep { cells: s.cells, board: synced(s.board, s.cells, self.fixed_paint@) }
    }
}

/// Whether an active cell covers a square.
pub open spec fn active_on(cells: Seq<SweepCell>, active: Seq<usize>, gx: int, gy: int) -> bool {
    exists|j: int| 0 <= j < active.len() && covers(cells[#[trigger] active[j] as int], gx, gy)
}

/// The board with the contested squares under active cells made dearer, each once.
pub open spec fn repriced(b: Board, cells: Seq<SweepCell>, active: Seq<usize>) -> Board {
    Board {
        pixels: Seq::new(b.pixels.len(), |k: int| NegPixel {
            hist_cost: (b.pixels[k].hist_cost + if active_on(cells, active, k % b.width, k / b.width) { b.pixels[k].over() } else { 0 }) as i64,
            ..b.pixels[k]
        }),
        ..b
    }
}

/// Distinct numbers below `n` are at most `n`.
proof fn lemma_distinct_bound(s: Seq<usize>, n: int)
    requires
        s.no_duplicates(),
        forall|k: int| 0 <= k < s.len() ==> #[trigger] s[k] < n,
        0 <= n,
    ensures
        s.len() <= n,
    decreases n,
{
    if n == 0 {
        if s.len() > 0 {
            assert(s[0] < 0);
        }
    } else if s.contains((n - 1) as usize) {
        let k = choose|k: int| 0 <= k < s.len() && s[k] == (n - 1) as usize;
        let t = s.remove(k);
        assert forall|j: int| 0 <= j < t.len() implies #[trigger] t[j] < n - 1 by {
            let o = if j < k { j } else { j + 1 };
            assert(t[j] == s[o]);
            assert(s[o] != s[k]);
        }
        assert forall|a: int, b: int| 0 <= a < t.len() && 0 <= b < t.len() && a != b implies t[a] != t[b] by {
            let oa = if a < k { a } else { a + 1 };
            let ob = if b < k { b } else { b + 1 };
            assert(t[a] == s[oa] && t[b] == s[ob] && oa != ob);
        }
        lemma_distinct_bound(t, n - 1);
    } else {
        assert forall|j: int| 0 <= j < s.len() implies #[trigger] s[j] < n - 1 by {
            assert(s[j] < n);
            assert(s[j] != (n - 1) as usize);
        }
        lemma_distinct_bound(s, n - 1);
    }
}

/// Claims bound the overuse under a footprint.
proof fn lemma_over_sum_bound(fp: Seq<Option<(i32, i32, i64)>>, n: int)
    requires
        0 <= n,
        forall|k: int| 0 <= k < fp.len() ==> ((#[trigger] fp[k]) matches Some((u, _, _)) ==> u <= n + 1),
    ensures
        0 <= over_sum(fp) <= fp.len() * n,
    decreases fp.len(),
{
    if fp.len() > 0 {
        let t = fp.skip(1);
        assert forall|k: int| 0 <= k < t.len() implies ((#[trigger] t[k]) matches Some((u, _, _)) ==> u <= n + 1) by {
            assert(t[k] == fp[k + 1]);
        }
        lemma_over_sum_bound(t, n);
        assert((fp.len() - 1) * n + n == fp.len() * n) by (nonlinear_arith);
    } else {
        assert(fp.len() * n == 0) by (nonlinear_arith)
            requires fp.len() == 0;
    }
}

proof fn lemma_foot_over_bound(cells: Seq<SweepCell>, b: Board, c: SweepCell)
    requires
        claimed(cells, -1, b),
        cells.len() <= CELL_LIMIT,
        cell_ok(c),
    ensures
        0 <= over_sum(foot(b, c.width as int, c.height as int, c.x as int, c.y as int)) <= 0x0200_0000_0000_0000_0000_0000,
{
    let fp = foot(b, c.width as int, c.height as int, c.x as int, c.y as int);
    let n = cells.len() as int;
    lemma_area(c.width, c.height);
    assert(c.width * c.height <= 0x2000_0000 * 0x2000_0000) by (nonlinear_arith)
        requires 0 <= c.width <= 0x2000_0000, 0 <= c.height <= 0x2000_0000;
    assert forall|k: int| 0 <= k < fp.len() implies ((#[trigger] fp[k]) matches Some((u, _, _)) ==> u <= n + 1) by {
        let gx = c.x + k % c.width as int;
        let gy = c.y + k / c.width as int;
        if b.on(gx, gy) {
            let p = b.sq(gx, gy);
            lemma_claims_bound(cells, n, -1, gx, gy);
        }
    }
    lemma_over_sum_bound(fp, n);
    assert(fp.len() * n <= 0x2000_0000 * 0x2000_0000 * 0x8000_0000) by (nonlinear_arith)
        requires 0 <= fp.len() <= 0x2000_0000 * 0x2000_0000, 0 <= n <= 0x8000_0000;
}

/// The indices of the squares of a footprint.
fn foot_indices(grid: &NegGrid, w: i32, h: i32, x: i32, y: i32) -> (r: Vec<usize>)
    requires
        grid.wf(),
    ensures
        forall|j: int| 0 <= j < r@.len() ==> #[trigger] r@[j] < grid.pixels@.len(),
        forall|k: usize| k < grid.pixels@.len() ==> (#[trigger] r@.contains(k) <==>
            in_foot(x as int, y as int, w as int, h as int, k as int % grid.width as int, k as int / grid.width as int)),
{
    let x0: i64 = crate::arith::max64(x as i64, 0);
    let y0: i64 = crate::arith::max64(y as i64, 0);
    let x1: i64 = crate::arith::min64(x as i64 + w as i64, grid.width as i64);
    let y1: i64 = crate::arith::min64(y as i64 + h as i64, grid.height as i64);
    let mut out: Vec<usize> = Vec::new();
    let mut gy: i64 = y0;
    let ghost gw = grid.width as int;
    while gy < y1
        invariant
            grid.wf(),
            gw == grid.width,
            x0 == imax(x as int, 0),
            y0 == imax(y as int, 0),
            x1 == imin(x + w, grid.width as int),
            y1 == imin(y + h, grid.height as int),
            y0 <= gy,
            gy <= y1 || gy == y0,
            forall|j: int| 0 <= j < out@.len() ==> #[trigger] out@[j] < grid.pixels@.len(),
            forall|k: usize| k < grid.pixels@.len() ==> (#[trigger] out@.contains(k) <==>
                x0 <= k as int % gw < x1 && y0 <= k as int / gw < gy),
        decreases y1 - gy,
    {
        let mut gx: i64 = x0;
        while gx < x1
            invariant
                grid.wf(),
                gw == grid.width,
                x0 == imax(x as int, 0),
                y0 == imax(y as int, 0),
                x1 == imin(x + w, grid.width as int),
                y1 == imin(y + h, grid.height as int),
                y0 <= gy < y1,
                x0 <= gx,
                gx <= x1 || gx == x0,
                forall|j: int| 0 <= j < out@.len() ==> #[trigger] out@[j] < grid.pixels@.len(),
                forall|k: usize| k < grid.pixels@.len() ==> (#[trigger] out@.contains(k) <==>
                    x0 <= k as int % gw < x1 && y0 <= k as int / gw < gy || k as int / gw == gy && x0 <= k as int % gw < gx),
            decreases x1 - gx,
        {
            let ghost before = out@;
            proof {
                grid.lemma_ix(gx as int, gy as int);
                grid.lemma_ix_parts(gx as int, gy as int);
                assert(0 <= gy * grid.width) by (nonlinear_arith)
                    requires gy >= 0, grid.width >= 0;
            }
            let ix: usize = gy as usize * grid.width + gx as usize;
            out.push(ix);
            assert forall|k: usize| k < grid.pixels@.len() implies (#[trigger] out@.contains(k) <==>
                x0 <= k as int % gw < x1 && y0 <= k as int / gw < gy || k as int / gw == gy && x0 <= k as int % gw < gx + 1) by {
                assert(out@ == before.push(ix));
                assert(out@.contains(k) <==> before.contains(k) || k == ix) by {
                    if before.contains(k) {
                        let j = choose|j: int| 0 <= j < before.len() && before[j] == k;
                        assert(out@[j] == k);
                    }
                    if k == ix {
                        assert(out@[before.len() as int] == k);
                    }
                    if out@.contains(k) {
                        let j = choose|j: int| 0 <= j < out@.len() && out@[j] == k;
                        if j < before.len() {
                            assert(before[j] == k);
                        }
                    }
                }
                if k as int / gw == gy && k as int % gw == gx {
                    grid.lemma_cell_of(k as int);
                    assert(k == ix);
                }
            }
            gx = gx + 1;
        }
        gy = gy + 1;
    }
    assert forall|k: usize| k < grid.pixels@.len() implies (#[trigger] out@.contains(k) <==>
        in_foot(x as int, y as int, w as int, h as int, k as int % grid.width as int, k as int / grid.width as int)) by {
        grid.lemma_cell_of(k as int);
    }
    out
}

/// Make the contested squares under active cells dearer.
fn reprice(cells: &[SweepCell], active: &Vec<usize>, grid: &mut NegGrid)
    requires
        old(grid).wf(),
        priced(old(grid).board()),
        forall|k: int| 0 <= k < active@.len() ==> #[trigger] active@[k] < cells@.len(),
    ensures
        final(grid).wf(),
        final(grid).row_sites == old(grid).row_sites,
        final(grid).board() == repriced(old(grid).board(), cells@, active@),
{
    let ghost g0 = *grid;
    let mut footprints: Vec<Vec<usize>> = Vec::new();
    let mut a: usize = 0;
    while a < active.len()
        invariant
            a <= active@.len(),
            *grid == g0,
            g0.wf(),
            footprints@.len() == a,
            forall|k: int| 0 <= k < active@.len() ==> #[trigger] active@[k] < cells@.len(),
            forall|i: int, j: int| 0 <= i < a && 0 <= j < footprints@[i]@.len() ==> #[trigger] footprints@[i]@[j] < g0.pixels@.len(),
            forall|i: int, k: usize| 0 <= i < a && k < g0.pixels@.len() ==> (#[trigger] footprints@[i]@.contains(k) <==>
                covers(cells@[active@[i] as int], k as int % g0.width as int, k as int / g0.width as int)),
        decreases active@.len() - a,
    {
        let i: usize = active[a];
        let c = &cells[i];
        let fp = foot_indices(grid, c.width, c.height, c.x, c.y);
        footprints.push(fp);
        a = a + 1;
    }
    proof {
        assert forall|k: int| 0 <= k < g0.pixels@.len() implies {
            &&& (#[trigger] g0.pixels@[k]).usage > i32::MIN
            &&& 1 <= g0.pixels@[k].hist_cost <= PRICE_LIMIT
        } by {
            g0.lemma_cell_of(k);
            let gx = k % g0.width as int;
            let gy = k / g0.width as int;
            assert(g0.sq(gx, gy) == g0.pixels@[k]);
            assert(g0.board().on(gx, gy));
            assert(g0.board().sq(gx, gy) == g0.pixels@[k]);
        }
    }
    update_history_costs(grid.pixels.as_mut_slice(), footprints.as_slice());
    proof {
        let want = repriced(g0.board(), cells@, active@);
        assert forall|k: int| 0 <= k < g0.pixels@.len() implies grid.pixels@[k] == want.pixels[k] by {
            assert(g0.pixels@.len() == g0.pixels.len());
            let gx = k % g0.width as int;
            let gy = k / g0.width as int;
            if touched(footprints@, k) {
                let (i, j) = choose|i: int, j: int| 0 <= i < footprints@.len() && 0 <= j < footprints@[i]@.len() && #[trigger] footprints@[i]@[j] == k;
                assert(footprints@[i]@.contains(k as usize));
                assert(covers(cells@[active@[i] as int], gx, gy));
                assert(active_on(cells@, active@, gx, gy));
            }
            if active_on(cells@, active@, gx, gy) {
                let i = choose|i: int| 0 <= i < active@.len() && covers(cells@[#[trigger] active@[i] as int], gx, gy);
                assert(footprints@[i]@.contains(k as usize));
                let j = choose|j: int| 0 <= j < footprints@[i]@.len() && footprints@[i]@[j] == k as usize;
                assert(footprints@[i]@[j] == k);
                assert(touched(footprints@, k));
            }
        }
        assert(grid.pixels@ =~= want.pixels);
        assert forall|x: int, y: int| #![trigger grid.sq(x, y)] grid.on(x, y) implies {
            &&& grid.sq(x, y).capacity == g0.sq(x, y).capacity
            &&& grid.sq(x, y).usage == g0.sq(x, y).usage
            &&& grid.sq(x, y).hist_cost >= g0.sq(x, y).hist_cost
            &&& g0.sq(x, y).hist_cost >= 1
        } by {
            g0.lemma_ix(x, y);
            assert(g0.board().on(x, y));
            assert(g0.board().sq(x, y) == g0.sq(x, y));
            let k = g0.ix(x, y);
            assert(grid.pixels@[k] == want.pixels[k]);
        }
        assert forall|y: int| 0 <= y < grid.height implies #[trigger] grid.row_sites@[y] == grid.row_usable(y) by {
            assert(g0.row_sites@[y] == g0.row_usable(y));
            if g0.row_usable(y) {
                let x = choose|x: int| 0 <= x < g0.width && (#[trigger] g0.sq(x, y)).capacity > 0;
                assert(grid.on(x, y));
                assert(grid.sq(x, y).capacity > 0);
            }
            if grid.row_usable(y) {
                let x = choose|x: int| 0 <= x < grid.width && (#[trigger] grid.sq(x, y)).capacity > 0;
                assert(grid.on(x, y));
                assert(g0.sq(x, y).capacity > 0);
            }
        }
    }
}

/// A sweep's result: the cells, the board, the active set and the violations left.
pub struct SweepResult {
    pub cells: Seq<SweepCell>,
    pub board: Board,
    pub active: Seq<usize>,
    pub violations: int,
}

impl<'a, R: SweepRules> SweepCtx<'a, R> {
    /// What a sweep does. Cells outside the active set that a move made illegal join it; prices
    /// rise only while something is wrong.
    pub open spec fn swept(&self, cells: Seq<SweepCell>, b: Board, active: Seq<usize>, iter: int) -> SweepResult {
        let s = self.settled(cells, b, active, iter);
        let more = self.bystanders(s.cells, s.board, active, 0);
        let violations = self.active_violations(s.cells, s.board, active, 0) + more.len();
        SweepResult {
            cells: s.cells,
            board: if violations > 0 { repriced(s.board, s.cells, active + more) } else { s.board },
            active: active + more,
            violations,
        }
    }
}

/// One sweep over the active cells, most overused first. Returns the violations left: the overuse
/// under every active cell, one for every active cell that is not legal, and one for every other
/// cell that has become illegal, which then joins the active set.
pub fn negotiation_iter<R: SweepRules>(cells: &mut [SweepCell], active: &mut Vec<usize>, iter: i32, ctx: &SweepCtx<R>, grid: &mut NegGrid) -> (violations: i128)
    requires
        sweep_ok(ctx, old(cells)@, *old(grid)),
        old(active)@.no_duplicates(),
        forall|k: int| 0 <= k < old(active)@.len() ==> #[trigger] old(active)@[k] < old(cells)@.len(),
        0 <= iter,
    ensures
        ({
            let want = ctx.swept(old(cells)@, old(grid).board(), old(active)@, iter as int);
            &&& final(cells)@ == want.cells
            &&& final(grid).board() == want.board
            &&& final(active)@ == want.active
            &&& violations == want.violations
        }),
        final(grid).wf(),
        final(grid).row_sites == old(grid).row_sites,
        final(cells)@.len() == old(cells)@.len(),
        kin(final(cells)@, old(cells)@),
        same_capacity(final(grid).board(), old(grid).board()),
        forall|i: int| 0 <= i < final(cells)@.len() ==> cell_ok(#[trigger] final(cells)@[i]),
        claimed(final(cells)@, -1, final(grid).board()),
        forall|m: int| #[trigger] priced_to(old(grid).board(), m) ==> priced_to(final(grid).board(), m + old(cells)@.len()),
        final(active)@.no_duplicates(),
        forall|k: int| 0 <= k < final(active)@.len() ==> #[trigger] final(active)@[k] < final(cells)@.len(),
        violations >= 0,
{
    let ghost cells0 = cells@;
    let ghost b0 = grid.board();
    let ghost active0 = active@;
    let ghost n = cells@.len() as int;
    let mut keys: Vec<SortKey> = Vec::new();
    let mut k: usize = 0;
    while k < active.len()
        invariant
            k <= active@.len(),
            cells@ == cells0,
            active@ == active0,
            b0 == grid.board(),
            sweep_ok(ctx, cells0, *grid),
            forall|j: int| 0 <= j < active0.len() ==> #[trigger] active0[j] < cells0.len(),
            keys@ == keys_of(cells0, b0, active0).subrange(0, k as int),
        decreases active@.len() - k,
    {
        let i: usize = active[k];
        assert(cell_ok(cells0[i as int]));
        let c = &cells[i];
        let ov: i128 = footprint_overuse(grid, c.width, c.height, c.x, c.y);
        keys.push(SortKey { overuse: ov, height: c.height, width: c.width, idx: i });
        k = k + 1;
        assert(keys@ =~= keys_of(cells0, b0, active0).subrange(0, k as int));
    }
    assert(keys@ =~= keys_of(cells0, b0, active0));
    sort_by_negotiation_order(keys.as_mut_slice());
    proof {
        law_sweep_order_determined(cells0, b0, active0, keys@);
        assert forall|j: int| 0 <= j < keys@.len() implies (#[trigger] keys@[j]).idx < cells0.len() by {
            let ks = keys_of(cells0, b0, active0);
            keys@.to_multiset_ensures();
            ks.to_multiset_ensures();
            assert(keys@.contains(keys@[j]));
            assert(keys@.to_multiset().count(keys@[j]) > 0);
            assert(ks.to_multiset().count(keys@[j]) > 0);
            assert(ks.contains(keys@[j]));
            let q = choose|q: int| 0 <= q < ks.len() && ks[q] == keys@[j];
            assert(active0[q] < cells0.len());
        }
    }
    let mut cands: Vec<Candidate> = Vec::new();
    k = 0;
    while k < keys.len()
        invariant
            k <= keys@.len(),
            0 <= iter,
            cells@.len() == n,
            n == cells0.len(),
            sweep_ok(ctx, cells@, *grid),
            kin(cells@, cells0),
            same_capacity(grid.board(), b0),
            same_prices(grid.board(), b0),
            grid.row_sites == old(grid).row_sites,
            forall|j: int| 0 <= j < keys@.len() ==> (#[trigger] keys@[j]).idx < n,
            ctx.visit_all(Sweep { cells: cells@, board: grid.board() }, keys@, k as int, iter as int)
                == ctx.visit_all(Sweep { cells: cells0, board: b0 }, keys@, 0, iter as int),
        decreases keys@.len() - k,
    {
        let i: usize = keys[k].idx;
        let ghost bk = grid.board();
        let ghost ck = cells@;
        proof {
            lemma_visit_keeps(*ctx, Sweep { cells: ck, board: bk }, i as int, iter as int);
        }
        ctx.visit_cell(cells, i, iter, grid, &mut cands);
        assert(same_prices(grid.board(), b0)) by {
            assert forall|gx: int, gy: int| #![trigger grid.board().sq(gx, gy)] b0.on(gx, gy) implies grid.board().sq(gx, gy).hist_cost == b0.sq(gx, gy).hist_cost by {
                assert(bk.on(gx, gy));
                assert(bk.sq(gx, gy).hist_cost == b0.sq(gx, gy).hist_cost);
            }
        }
        k = k + 1;
    }
    let ghost g1 = *grid;
    sync_all_cells_to_grid(cells, ctx.fixed_paint, grid);
    let ghost g2 = *grid;
    let ghost cells2 = cells@;
    let ghost b2 = grid.board();
    proof {
        assert((Sweep { cells: cells2, board: b2 }) == ctx.settled(cells0, b0, active0, iter as int));
        assert forall|gx: int, gy: int| #![trigger b2.sq(gx, gy)] b2.on(gx, gy) implies {
            &&& b2.sq(gx, gy).usage == g1.board().sq(gx, gy).usage
            &&& b2.sq(gx, gy).capacity == g1.board().sq(gx, gy).capacity
            &&& b2.sq(gx, gy).hist_cost == g1.board().sq(gx, gy).hist_cost
        } by {
            g1.lemma_ix(gx, gy);
            assert(g1.on(gx, gy));
            let q = g1.ix(gx, gy);
            assert(b2.pixels[q].usage == g1.board().pixels[q].usage);
        }
        assert(claimed(cells2, -1, b2)) by {
            assert forall|gx: int, gy: int| #![trigger b2.sq(gx, gy)] b2.on(gx, gy) implies {
                let d = b2.sq(gx, gy).usage - claims(cells2, cells2.len() as int, -1, gx, gy);
                if b2.sq(gx, gy).capacity == 0 { -(cells2.len() as int) <= d <= 1 } else { d == 0 }
            } by {
                let p = g1.board().sq(gx, gy);
                assert(g1.board().on(gx, gy));
            }
        }
        assert(priced(b2)) by {
            assert forall|gx: int, gy: int| #![trigger b2.sq(gx, gy)] b2.on(gx, gy) implies 1 <= b2.sq(gx, gy).hist_cost <= PRICE_LIMIT by {
                let p = g1.board().sq(gx, gy);
                assert(g1.board().on(gx, gy));
            }
        }
        lemma_distinct_bound(active0, n);
    }
    let mut violations: i128 = 0;
    k = 0;
    while k < active.len()
        invariant
            k <= active@.len(),
            active@ == active0,
            active0.len() <= n <= CELL_LIMIT,
            cells@ == cells2,
            cells2.len() == n,
            b2 == grid.board(),
            sweep_ok(ctx, cells2, *grid),
            forall|j: int| 0 <= j < active0.len() ==> #[trigger] active0[j] < n,
            0 <= violations <= k * 0x0200_0000_0000_0000_0000_0001,
            violations + ctx.active_violations(cells2, b2, active0, k as int) == ctx.active_violations(cells2, b2, active0, 0),
        decreases active@.len() - k,
    {
        let i: usize = active[k];
        assert(cell_ok(cells2[i as int]));
        if !cells[i].fixed {
            let c = &cells[i];
            proof {
                lemma_foot_over_bound(cells2, b2, cells2[i as int]);
            }
            violations = violations + footprint_overuse(grid, c.width, c.height, c.x, c.y);
            if !ctx.cell_is_legal(i, c, grid) {
                violations = violations + 1;
            }
        }
        k = k + 1;
    }
    let count: usize = cells.len();
    let mut in_active: Vec<bool> = Vec::new();
    while in_active.len() < count
        invariant
            in_active@.len() <= count,
            forall|j: int| 0 <= j < in_active@.len() ==> !in_active@[j],
        decreases count - in_active@.len(),
    {
        in_active.push(false);
    }
    k = 0;
    while k < active.len()
        invariant
            k <= active@.len(),
            active@ == active0,
            in_active@.len() == n,
            forall|j: int| 0 <= j < active0.len() ==> #[trigger] active0[j] < n,
            forall|j: int| 0 <= j < n ==> (#[trigger] in_active@[j] <==> exists|q: int| 0 <= q < k && active0[q] == j),
        decreases active@.len() - k,
    {
        let ghost before = in_active@;
        in_active[active[k]] = true;
        assert forall|j: int| 0 <= j < n implies (#[trigger] in_active@[j] <==> exists|q: int| 0 <= q < k + 1 && active0[q] == j) by {
            if j == active0[k as int] {
                assert(active0[k as int] == j);
            } else {
                assert(in_active@[j] == before[j]);
                if exists|q: int| 0 <= q < k + 1 && active0[q] == j {
                    let q = choose|q: int| 0 <= q < k + 1 && active0[q] == j;
                    assert(q < k);
                }
            }
        }
        k = k + 1;
    }
    let ghost counted = violations as int;
    let mut i: usize = 0;
    while i < count
        invariant
            i <= count,
            count == n,
            n <= CELL_LIMIT,
            cells@ == cells2,
            cells2.len() == n,
            b2 == grid.board(),
            sweep_ok(ctx, cells2, *grid),
            in_active@.len() == n,
            forall|j: int| 0 <= j < n ==> (#[trigger] in_active@[j] <==> exists|q: int| 0 <= q < active0.len() && active0[q] == j),
            active@ + ctx.bystanders(cells2, b2, active0, i as int) == active0 + ctx.bystanders(cells2, b2, active0, 0),
            active@.len() >= active0.len(),
            active@.len() - active0.len() <= i,
            violations == counted + active@.len() - active0.len(),
            0 <= counted <= n * 0x0200_0000_0000_0000_0000_0001,
            active@.no_duplicates(),
            forall|j: int| 0 <= j < active@.len() ==> #[trigger] active@[j] < n,
            forall|j: int| active0.len() <= j < active@.len() ==> #[trigger] active@[j] < i,
            forall|j: int| 0 <= j < active0.len() ==> #[trigger] active@[j] == active0[j],
        decreases count - i,
    {
        assert(in_active@[i as int] <==> active0.contains(i));
        let ghost act = active@;
        if !cells[i].fixed && !in_active[i] && !ctx.cell_is_legal(i, &cells[i], grid) {
            active.push(i);
            violations = violations + 1;
            assert(active@ + ctx.bystanders(cells2, b2, active0, i + 1) =~= act + ctx.bystanders(cells2, b2, active0, i as int));
            assert forall|a: int, c: int| 0 <= a < active@.len() && 0 <= c < active@.len() && a != c implies active@[a] != active@[c] by {
                if a == act.len() && c < active0.len() {
                    assert(active0[c] != i);
                } else if c == act.len() && a < active0.len() {
                    assert(active0[a] != i);
                }
            }
        }
        i = i + 1;
    }
    proof {
        assert(active@ + ctx.bystanders(cells2, b2, active0, i as int) =~= active@);
        assert(active@ =~= active0 + ctx.bystanders(cells2, b2, active0, 0));
    }
    if violations > 0 {
        reprice(cells, active, grid);
    }
    proof {
        let bf = grid.board();
        assert forall|gx: int, gy: int| #![trigger bf.sq(gx, gy)] bf.on(gx, gy) implies {
            &&& bf.sq(gx, gy).usage == b2.sq(gx, gy).usage
            &&& bf.sq(gx, gy).capacity == b2.sq(gx, gy).capacity
            &&& b2.sq(gx, gy).hist_cost <= bf.sq(gx, gy).hist_cost <= b2.sq(gx, gy).hist_cost + n
            &&& b2.sq(gx, gy).hist_cost == b0.sq(gx, gy).hist_cost
        } by {
            assert(g2.on(gx, gy));
            g2.lemma_ix(gx, gy);
            let q = g2.ix(gx, gy);
            assert(b2.on(gx, gy));
            let p = b2.sq(gx, gy);
            lemma_claims_bound(cells2, n, -1, gx, gy);
            assert(b2.pixels[q] == p);
            assert(g1.board().sq(gx, gy).hist_cost == b0.sq(gx, gy).hist_cost) by {
                assert(b0.on(gx, gy));
            }
        }
        assert(claimed(cells2, -1, bf)) by {
            assert forall|gx: int, gy: int| #![trigger bf.sq(gx, gy)] bf.on(gx, gy) implies {
                let d = bf.sq(gx, gy).usage - claims(cells2, cells2.len() as int, -1, gx, gy);
                if bf.sq(gx, gy).capacity == 0 { -(cells2.len() as int) <= d <= 1 } else { d == 0 }
            } by {
                let p = b2.sq(gx, gy);
                assert(b2.on(gx, gy));
            }
        }
        assert forall|m: int| #[trigger] priced_to(b0, m) implies priced_to(bf, m + n) by {
            assert forall|gx: int, gy: int| #![trigger bf.sq(gx, gy)] bf.on(gx, gy) implies 1 <= bf.sq(gx, gy).hist_cost <= m + n by {
                assert(b0.on(gx, gy));
                let p = b0.sq(gx, gy);
            }
        }
    }
    violations
}

proof fn lemma_over_sum_nonneg(fp: Seq<Option<(i32, i32, i64)>>)
    ensures
        over_sum(fp) >= 0,
    decreases fp.len(),
{
    if fp.len() > 0 {
        lemma_over_sum_nonneg(fp.skip(1));
    }
}

proof fn lemma_active_violations<'a, R: SweepRules>(ctx: SweepCtx<'a, R>, cells: Seq<SweepCell>, b: Board, active: Seq<usize>, k: int)
    requires
        0 <= k,
    ensures
        ctx.active_violations(cells, b, active, k) >= 0,
        forall|j: int| k <= j < active.len() && ctx.active_violations(cells, b, active, k) == 0 && !cells[#[trigger] active[j] as int].fixed ==>
            ctx.legal(active[j] as int, cells[active[j] as int], b),
    decreases active.len() - k,
{
    if k < active.len() {
        lemma_active_violations(ctx, cells, b, active, k + 1);
        let c = cells[active[k] as int];
        lemma_over_sum_nonneg(foot(b, c.width as int, c.height as int, c.x as int, c.y as int));
    }
}

proof fn lemma_bystanders<'a, R: SweepRules>(ctx: SweepCtx<'a, R>, cells: Seq<SweepCell>, b: Board, active: Seq<usize>, i: int, j: int)
    requires
        0 <= i <= j < cells.len(),
        ctx.bystanders(cells, b, active, i).len() == 0,
        !cells[j].fixed,
        !active.contains(j as usize),
    ensures
        ctx.legal(j, cells[j], b),
    decreases cells.len() - i,
{
    if i < j {
        lemma_bystanders(ctx, cells, b, active, i + 1, j);
    }
}

/// A sweep that leaves no violation leaves every cell legal.
pub proof fn law_no_violations_means_legal<'a, R: SweepRules>(ctx: SweepCtx<'a, R>, cells: Seq<SweepCell>, b: Board, active: Seq<usize>, iter: int, i: int)
    requires
        ctx.swept(cells, b, active, iter).violations == 0,
        0 <= i < ctx.swept(cells, b, active, iter).cells.len(),
        i <= usize::MAX,
        !ctx.swept(cells, b, active, iter).cells[i].fixed,
    ensures
        ctx.legal(i, ctx.swept(cells, b, active, iter).cells[i], ctx.swept(cells, b, active, iter).board),
{
    let s = ctx.settled(cells, b, active, iter);
    lemma_active_violations(ctx, s.cells, s.board, active, 0);
    let more = ctx.bystanders(s.cells, s.board, active, 0);
    if active.contains(i as usize) {
        let q = choose|q: int| 0 <= q < active.len() && active[q] == i as usize;
        assert(!s.cells[active[q] as int].fixed);
    } else {
        lemma_bystanders(ctx, s.cells, s.board, active, 0, i);
    }
}

} // verus!
