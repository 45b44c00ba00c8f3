//! The negotiation legalizer's rules: who takes part, what a location costs, how far a cell looks,
//! in which order candidates are offered, and when a run ends.
//!
//! Cells may overlap; contested squares grow dearer; each sweep rips cells up and places them again
//! until nothing overlaps. Costs are counted in millionths.

use vstd::prelude::*;
use crate::arith::{dist, distance, div_floor, div_round, imax, imin, max64, min64, round_quot};
use crate::sort::{in_order, sorted, Ranked};
use crate::text::same_text;

pub use crate::consts;
pub use crate::consts::{COST_UNIT, INF_COST};
pub use crate::neg_grid::{update_history_costs, NegGrid, NegPixel};
pub use crate::grid::{is_nearest, lemma_nearest_unique, nearest_ix, nearest_row};
pub use crate::neg_legalize::{legalize, not_done, NegInput, NegInst};
pub use crate::neg_rules::NegRules;
pub use crate::run::{run_negotiation, Negotiation, Outcome, Replay};
pub use crate::search::{build_search_window, enumerate_candidates, horizontal_window_bounds, vertical_window_rows, Candidate, ScanRank, SearchWindow};
pub use crate::sweep::{footprint_is_legal, negotiation_iter, sync_all_cells_to_grid, FixedPaint, Rules, SweepCell, SweepCtx, SweepRules};

verus! {

/// The settings of a run.
#[derive(Debug, Clone, Copy, PartialEq, Eq)]
pub struct Options {
    /// The reach of a search to either side, in sites.
    pub site_search_window: i32,
    /// The rows a search looks for below and above.
    pub row_search_window: i32,
    /// How far a cell may move, in sites and in rows.
    pub max_displacement_x: i32,
    pub max_displacement_y: i32,
    /// The cost of a broken placement rule, in millionths.
    pub drc_penalty: i64,
    /// Whether windows stay as they are where they meet a wall.
    pub disable_window_extension: bool,
}

impl Options {
    /// The settings are not negative and in range.
    pub open spec fn ok(&self) -> bool {
        &&& 0 <= self.site_search_window <= 0x0800_0000
        &&& 0 <= self.row_search_window <= 0x0800_0000
        &&& 0 <= self.max_displacement_x <= 0x2000_0000
        &&& 0 <= self.max_displacement_y <= 0x2000_0000
        &&& 0 <= self.drc_penalty
    }
}

impl Default for Options {
    fn default() -> (r: Options)
        ensures
            r.ok(),
            r.site_search_window == consts::SITE_SEARCH_WINDOW,
            r.row_search_window == consts::ROW_SEARCH_WINDOW,
            r.max_displacement_x == consts::MAX_DISPLACEMENT_X,
            r.max_displacement_y == consts::MAX_DISPLACEMENT_Y,
            r.drc_penalty == consts::DRC_PENALTY,
            !r.disable_window_extension,
    {
        Options {
            site_search_window: consts::SITE_SEARCH_WINDOW,
            row_search_window: consts::ROW_SEARCH_WINDOW,
            max_displacement_x: consts::MAX_DISPLACEMENT_X,
            max_displacement_y: consts::MAX_DISPLACEMENT_Y,
            drc_penalty: consts::DRC_PENALTY,
            disable_window_extension: false,
        }
    }
}

/// Which instances take part: those with a position, whose master the placer may place.
pub fn enters_model(placement_status: &str, core_auto_placeable: bool) -> (r: bool)
    ensures
        r == (placement_status@ != "NONE"@ && core_auto_placeable),
{
    !same_text(placement_status, "NONE") && core_auto_placeable
}

/// A cell's width in sites: the nearest whole number, at least one.
pub fn cell_width_in_sites(master_width: i64, site_width: i64) -> (r: i32)
    requires
        -0x1000_0000_0000_0000 <= master_width <= 0x1000_0000_0000_0000,
        site_width <= 0x1_0000_0000,
    ensures
        r == if site_width <= 0 { 1 } else { imax(1, imin(round_quot(master_width as int, site_width as int), i32::MAX as int)) },
{
    if site_width <= 0 {
        return 1;
    }
    max64(1, min64(div_round(master_width, site_width), i32::MAX as i64)) as i32
}

/// `v` held between 0 and `hi`, or at 0 where `hi` is negative.
pub open spec fn clamp0(v: int, hi: int) -> int {
    imin(imax(v, 0), imax(hi, 0))
}

/// The starting grid position: x down to a site, y to the nearest row boundary, and both held so
/// that the whole footprint stays on the grid.
pub fn init_position(
    x_dbu: i64, y_dbu: i64, core_x: i64, core_y: i64, site_width: i64,
    row_y: &[i32], width: i32, height: i32, grid_w: i32, grid_h: i32,
) -> (r: (i32, i32))
    requires
        site_width > 0,
        i64::MIN < x_dbu - core_x <= i64::MAX,
        i32::MIN <= y_dbu - core_y <= i32::MAX,
        row_y@.len() <= i32::MAX,
        grid_w - width <= i32::MAX,
        grid_h - height <= i32::MAX,
    ensures
        r.0 == clamp0((x_dbu - core_x) / site_width as int, grid_w - width),
        r.1 == clamp0(nearest_ix(row_y@, y_dbu - core_y), grid_h - height),
{
    let gx: i64 = div_floor(x_dbu - core_x, site_width);
    let gy: usize = nearest_row(row_y, y_dbu - core_y);
    let hx: i64 = max64(grid_w as i64 - width as i64, 0);
    let hy: i64 = max64(grid_h as i64 - height as i64, 0);
    let x: i64 = min64(max64(gx, 0), hx);
    let y: i64 = min64(max64(gy as i64, 0), hy);
    (x as i32, y as i32)
}

/// One cell in the negotiation model, in grid units: site columns and row indices.
#[derive(Debug, Clone, PartialEq, Eq)]
pub struct NegCell {
    pub name: String,
    pub x: i32,
    pub y: i32,
    /// Width in sites and height in rows.
    pub width: i32,
    pub height: i32,
    pub fixed: bool,
    pub legal: bool,
}

/// What a sweep is ordered by: the most overused first, then the shortest, then the narrowest,
/// then the lowest index.
#[derive(Debug, Clone, Copy, PartialEq, Eq, Structural)]
pub struct SortKey {
    pub overuse: i128,
    pub height: i32,
    pub width: i32,
    pub idx: usize,
}

impl Ranked for SortKey {
    open spec fn leq(self, o: SortKey) -> bool {
        ||| self.overuse > o.overuse
        ||| self.overuse == o.overuse && self.height < o.height
        ||| self.overuse == o.overuse && self.height == o.height && self.width < o.width
        ||| self.overuse == o.overuse && self.height == o.height && self.width == o.width && self.idx <= o.idx
    }

    proof fn rank_laws() {
    }

    fn at_most(self, o: SortKey) -> (r: bool) {
        if self.overuse != o.overuse {
            self.overuse > o.overuse
        } else if self.height != o.height {
            self.height < o.height
        } else if self.width != o.width {
            self.width < o.width
        } else {
            self.idx <= o.idx
        }
    }
}

/// Order the active cells for one sweep.
pub fn sort_by_negotiation_order(keys: &mut [SortKey])
    ensures
        final(keys)@.len() == old(keys)@.len(),
        in_order(final(keys)@),
        final(keys)@.to_multiset() == old(keys)@.to_multiset(),
{
    let n: usize = keys.len();
    let ghost k0 = keys@;
    let mut v: Vec<SortKey> = Vec::new();
    let mut i: usize = 0;
    while i < n
        invariant
            i <= n == keys@.len(),
            keys@ == k0,
            v@ == k0.subrange(0, i as int),
        decreases n - i,
    {
        v.push(keys[i]);
        i = i + 1;
        assert(v@ =~= k0.subrange(0, i as int));
    }
    assert(v@ =~= k0);
    let s = sorted(&v);
    i = 0;
    while i < n
        invariant
            i <= n == keys@.len(),
            s@.len() == n,
            forall|j: int| 0 <= j < i ==> keys@[j] == s@[j],
        decreases n - i,
    {
        keys[i] = s[i];
        i = i + 1;
    }
    assert(keys@ =~= s@);
}

/// The displacement term, in millionths: linear, and steeper past the threshold.
pub open spec fn disp_cost(disp: int, multiplier: int, threshold: int) -> int {
    COST_UNIT * disp + multiplier * imax(disp - threshold, 0)
}

/// The displacement term, in millionths; `multiplier` too counts millionths.
pub fn target_cost_from_disp(disp: i64, multiplier: i64, threshold: i64) -> (r: i128)
    requires
        i64::MIN <= disp - threshold <= i64::MAX,
    ensures
        r == disp_cost(disp as int, multiplier as int, threshold as int),
{
    let extra: i128 = max64(disp - threshold, 0) as i128;
    let m: i128 = multiplier as i128;
    proof {
        assert(-0x8000_0000_0000_0000 * 0x8000_0000_0000_0000 <= m * extra <= 0x8000_0000_0000_0000 * 0x8000_0000_0000_0000) by (nonlinear_arith)
            requires -0x8000_0000_0000_0000 <= m <= 0x8000_0000_0000_0000, 0 <= extra <= 0x8000_0000_0000_0000;
    }
    COST_UNIT * disp as i128 + m * extra
}

/// The displacement term never falls as the displacement grows.
pub proof fn law_displacement_cost_is_monotone(d1: int, d2: int, multiplier: int, threshold: int)
    requires
        d1 <= d2,
        multiplier >= 0,
    ensures
        disp_cost(d1, multiplier, threshold) <= disp_cost(d2, multiplier, threshold),
        d1 < d2 ==> disp_cost(d1, multiplier, threshold) < disp_cost(d2, multiplier, threshold),
{
    let a = imax(d1 - threshold, 0);
    let b = imax(d2 - threshold, 0);
    assert(multiplier * a <= multiplier * b) by (nonlinear_arith)
        requires multiplier >= 0, a <= b;
}

/// The displacement of `(x, y)` from `(init_x, init_y)`, along both axes.
pub open spec fn displacement(x: int, y: int, init_x: int, init_y: int) -> int {
    dist(x, init_x) + dist(y, init_y)
}

/// The displacement term of a position, measured from where the cell started.
pub fn target_cost(x: i32, y: i32, init_x: i32, init_y: i32, multiplier: i64, threshold: i64) -> (r: i128)
    requires
        i64::MIN <= displacement(x as int, y as int, init_x as int, init_y as int) - threshold <= i64::MAX,
    ensures
        r == disp_cost(displacement(x as int, y as int, init_x as int, init_y as int), multiplier as int, threshold as int),
{
    let disp: i64 = distance(x as i64, init_x as i64) + distance(y as i64, init_y as i64);
    target_cost_from_disp(disp, multiplier, threshold)
}

/// What a square adds, in millionths: its history price times the claims on it, the asking cell
/// included.
pub open spec fn square_cost(usage: int, hist: int) -> int {
    COST_UNIT * (hist * (usage + 1))
}

/// No bound on a cost passes this, so that costs stay within 128 bits.
pub const COST_LIMIT: i128 = 0x4000_0000_0000_0000_0000_0000_0000_0000;

/// A footprint's cost on top of `cost`, given up once it passes `bound`. A square off the grid
/// (`None`) or without capacity makes the location unusable.
pub open spec fn scan_cost(fp: Seq<Option<(i32, i32, i64)>>, cost: int, bound: int) -> int
    decreases fp.len(),
{
    if cost > bound || fp.len() == 0 {
        cost
    } else {
        match fp[0] {
            None => cost + INF_COST,
            Some((usage, capacity, hist)) => if capacity == 0 {
                cost + INF_COST
            } else {
                scan_cost(fp.skip(1), cost + square_cost(usage as int, hist as int), bound)
            },
        }
    }
}

/// A square that can be priced: it is blocked, or its price and its claims are not negative.
pub open spec fn square_ok(s: Option<(i32, i32, i64)>) -> bool {
    s matches Some((usage, capacity, hist)) ==> {
        ||| capacity == 0
        ||| capacity == 1 && usage >= -1 && hist >= 0
    }
}

/// A location's cost: its displacement term plus, square by square, history times congestion.
/// Given up once it passes `abort_bound`.
pub fn negotiation_cost(
    footprint: &[Option<(i32, i32, i64)>],
    target: i128,
    abort_bound: i128,
) -> (r: i128)
    requires
        forall|k: int| 0 <= k < footprint@.len() ==> square_ok(#[trigger] footprint@[k]),
        abort_bound <= COST_LIMIT,
    ensures
        r == scan_cost(footprint@, target as int, abort_bound as int),
{
    let mut cost: i128 = target;
    if cost > abort_bound {
        return cost;
    }
    let mut k: usize = 0;
    assert(footprint@.skip(0) =~= footprint@);
    while k < footprint.len()
        invariant
            k <= footprint@.len(),
            forall|j: int| 0 <= j < footprint@.len() ==> square_ok(#[trigger] footprint@[j]),
            abort_bound <= COST_LIMIT,
            cost <= abort_bound,
            scan_cost(footprint@.skip(k as int), cost as int, abort_bound as int) == scan_cost(footprint@, target as int, abort_bound as int),
        decreases footprint@.len() - k,
    {
        let square = footprint[k];
        assert(square_ok(footprint@[k as int]));
        assert(footprint@.skip(k as int)[0] == square);
        assert(footprint@.skip(k as int).skip(1) =~= footprint@.skip(k + 1));
        match square {
            None => return cost + INF_COST,
            Some((usage, capacity, hist)) => {
                if capacity == 0 {
                    return cost + INF_COST;
                }
                let c: i128 = square_cost_at(usage, hist);
                cost = cost + c;
                if cost > abort_bound {
                    assert(scan_cost(footprint@.skip(k + 1), cost as int, abort_bound as int) == cost);
                    return cost;
                }
            },
        }
        k = k + 1;
    }
    cost
}

/// What a square adds, in millionths.
pub fn square_cost_at(usage: i32, hist: i64) -> (r: i128)
    requires
        usage >= -1,
        hist >= 0,
    ensures
        r == square_cost(usage as int, hist as int),
        0 <= r <= 0x8000_0000_0000_0000 * 0x8000_0000 * 1000000,
{
    let u: i128 = usage as i128 + 1;
    let p: i128 = hist as i128;
    proof {
        assert(0 <= p * u <= 0x8000_0000_0000_0000 * 0x8000_0000) by (nonlinear_arith)
            requires 0 <= p <= 0x8000_0000_0000_0000, 0 <= u <= 0x8000_0000;
    }
    COST_UNIT * (p * u)
}

/// Giving up early is safe: a location that stays within the bound costs what it costs without
/// one, and a location given up costs more than the bound without one as well.
pub proof fn law_abort_is_safe(fp: Seq<Option<(i32, i32, i64)>>, cost: int, bound: int, no_bound: int)
    requires
        forall|k: int| 0 <= k < fp.len() ==> square_ok(#[trigger] fp[k]),
        bound <= no_bound,
        scan_cost(fp, cost, no_bound) <= no_bound,
    ensures
        scan_cost(fp, cost, bound) <= bound ==> scan_cost(fp, cost, bound) == scan_cost(fp, cost, no_bound),
        scan_cost(fp, cost, bound) > bound ==> scan_cost(fp, cost, no_bound) > bound,
        cost <= scan_cost(fp, cost, no_bound),
    decreases fp.len(),
{
    if fp.len() > 0 && cost <= no_bound {
        match fp[0] {
            None => {},
            Some((usage, capacity, hist)) => {
                if capacity != 0 {
                    assert(square_ok(fp[0]));
                    let c = square_cost(usage as int, hist as int);
                    assert(c >= 0) by (nonlinear_arith)
                        requires c == COST_UNIT * (hist * (usage + 1)), COST_UNIT == 1000000, hist >= 0, usage >= -1;
                    assert(forall|k: int| 0 <= k < fp.skip(1).len() ==> fp.skip(1)[k] == fp[k + 1]);
                    assert forall|k: int| 0 <= k < fp.skip(1).len() implies square_ok(#[trigger] fp.skip(1)[k]) by {
                        assert(square_ok(fp[k + 1]));
                    }
                    law_abort_is_safe(fp.skip(1), cost + c, bound, no_bound);
                }
            },
        }
    }
}

/// An occupied square costs more than an empty one, and a dearer history more than a cheaper one.
pub proof fn law_congestion_is_priced(usage: int, hist: int)
    requires
        usage >= 0,
        hist >= 1,
    ensures
        square_cost(usage + 1, hist) > square_cost(usage, hist),
        square_cost(usage, hist + 1) > square_cost(usage, hist),
{
    assert(hist * (usage + 2) > hist * (usage + 1)) by (nonlinear_arith)
        requires hist >= 1;
    assert((hist + 1) * (usage + 1) > hist * (usage + 1)) by (nonlinear_arith)
        requires usage >= 0;
}

/// Why a position is not legal.
#[derive(Debug, Clone, Copy, PartialEq, Eq, Structural)]
pub enum Legality {
    Legal,
    OffDie,
    RowHasNoSites,
    RowRejectsSite,
    Blockage,
    Overused,
    /// The cell breaks a placement rule.
    DrcViolation,
    /// No rule checker was supplied, so nothing can vouch for the cell.
    DrcUnavailable,
}

/// Whether a predicate and a mathematical one agree.
pub open spec fn agrees1<F: Fn(i32) -> bool>(f: F, g: spec_fn(int) -> bool) -> bool {
    forall|x: i32, r: bool| #[trigger] f.ensures((x,), r) ==> r == g(x as int)
}

/// May a cell of this height sit in this row?
pub open spec fn row_verdict(row: int, height: int, grid_h: int, hs: spec_fn(int) -> bool, os: spec_fn(int) -> bool) -> Legality {
    if row < 0 || row + height > grid_h {
        Legality::OffDie
    } else if exists|dy: int| 0 <= dy < height && !#[trigger] hs(row + dy) {
        Legality::RowHasNoSites
    } else if !os(row) {
        Legality::RowRejectsSite
    } else {
        Legality::Legal
    }
}

/// May this cell sit in this row? The span must lie inside the grid, every row of it must have
/// sites, and its bottom row must offer the cell's site.
pub fn is_valid_row<F: Fn(i32) -> bool, G: Fn(i32) -> bool>(
    row: i32,
    height: i32,
    grid_h: i32,
    row_has_sites: &F,
    row_offers_site: &G,
) -> (r: Legality)
    requires
        forall|a: i32| #[trigger] row_has_sites.requires((a,)),
        forall|a: i32| #[trigger] row_offers_site.requires((a,)),
    ensures
        forall|hs: spec_fn(int) -> bool, os: spec_fn(int) -> bool|
            #![trigger agrees1(*row_has_sites, hs), agrees1(*row_offers_site, os)]
            agrees1(*row_has_sites, hs) && agrees1(*row_offers_site, os) ==>
                r == row_verdict(row as int, height as int, grid_h as int, hs, os),
{
    if row < 0 || row as i64 + height as i64 > grid_h as i64 {
        return Legality::OffDie;
    }
    let mut dy: i32 = 0;
    while dy < height
        invariant
            row >= 0,
            row + height <= grid_h,
            0 <= dy,
            dy <= height || height < 0,
            forall|a: i32| #[trigger] row_has_sites.requires((a,)),
            forall|hs: spec_fn(int) -> bool| #[trigger] agrees1(*row_has_sites, hs) ==>
                forall|d: int| 0 <= d < dy ==> #[trigger] hs(row + d),
        decreases height - dy,
    {
        let ok: bool = row_has_sites(row + dy);
        if !ok {
            assert forall|hs: spec_fn(int) -> bool| #[trigger] agrees1(*row_has_sites, hs) implies !hs(row + dy) by {}
            return Legality::RowHasNoSites;
        }
        assert forall|hs: spec_fn(int) -> bool| #[trigger] agrees1(*row_has_sites, hs) implies
            forall|d: int| 0 <= d < dy + 1 ==> #[trigger] hs(row + d) by {
            assert(hs(row + dy));
        }
        dy = dy + 1;
    }
    if !row_offers_site(row) {
        return Legality::RowRejectsSite;
    }
    Legality::Legal
}

/// The verdict of a footprint's squares, `(usage, capacity)` each: that of the first one that is
/// blocked or overused.
pub open spec fn foot_verdict(fp: Seq<(i32, i32)>) -> Legality
    decreases fp.len(),
{
    if fp.len() == 0 {
        Legality::Legal
    } else if fp[0].1 == 0 {
        Legality::Blockage
    } else if fp[0].0 - 1 > 0 {
        Legality::Overused
    } else {
        foot_verdict(fp.skip(1))
    }
}

/// Is the cell legally placed where it is? Asked in this order: the die, the row, the placement
/// rules, the squares of the footprint. Without a rule checker (`None`) the cell fails.
pub fn is_cell_legal(
    in_die: bool,
    row_ok: Legality,
    drc_ok: Option<bool>,
    footprint: &[(i32, i32)],
) -> (r: Legality)
    requires
        forall|k: int| 0 <= k < footprint@.len() ==> (#[trigger] footprint@[k]).0 > i32::MIN,
    ensures
        r == if !in_die {
            Legality::OffDie
        } else if row_ok != Legality::Legal {
            row_ok
        } else if drc_ok is None {
            Legality::DrcUnavailable
        } else if drc_ok == Some(false) {
            Legality::DrcViolation
        } else {
            foot_verdict(footprint@)
        },
{
    if !in_die {
        return Legality::OffDie;
    }
    if row_ok != Legality::Legal {
        return row_ok;
    }
    match drc_ok {
        None => return Legality::DrcUnavailable,
        Some(false) => return Legality::DrcViolation,
        Some(true) => {},
    }
    let mut k: usize = 0;
    assert(footprint@.skip(0) =~= footprint@);
    while k < footprint.len()
        invariant
            k <= footprint@.len(),
            in_die,
            row_ok == Legality::Legal,
            drc_ok == Some(true),
            forall|j: int| 0 <= j < footprint@.len() ==> (#[trigger] footprint@[j]).0 > i32::MIN,
            foot_verdict(footprint@.skip(k as int)) == foot_verdict(footprint@),
        decreases footprint@.len() - k,
    {
        let (usage, capacity) = footprint[k];
        assert(footprint@.skip(k as int)[0] == footprint@[k as int]);
        assert(footprint@.skip(k as int).skip(1) =~= footprint@.skip(k + 1));
        if capacity == 0 {
            return Legality::Blockage;
        }
        if usage - 1 > 0 {
            return Legality::Overused;
        }
        k = k + 1;
    }
    Legality::Legal
}

/// The horizontal window: at least the cell's own width, and never past the displacement limit.
pub fn effective_site_window(base: i32, cell_width: i32, max_disp_x: i32, allow_extension: bool) -> (r: i32)
    ensures
        r == if !allow_extension || base == 0 {
            imin(base as int, max_disp_x as int)
        } else {
            imin(imax(base as int, cell_width as int), max_disp_x as int)
        },
{
    let reach: i32 = if !allow_extension || base == 0 || cell_width <= base { base } else { cell_width };
    if reach <= max_disp_x { reach } else { max_disp_x }
}

/// The vertical distance limit: as many times the base as the cell is rows tall, and never past
/// the displacement limit.
pub fn effective_row_cap(base: i32, cell_height: i32, max_disp_y: i32, allow_extension: bool) -> (r: i32)
    requires
        cell_height * base >= i32::MIN,
    ensures
        r == if !allow_extension {
            imin(base as int, max_disp_y as int)
        } else {
            imin(cell_height * base, max_disp_y as int)
        },
{
    if !allow_extension {
        return if base <= max_disp_y { base } else { max_disp_y };
    }
    proof {
        assert(-0x4000_0000_0000_0000 <= cell_height * base <= 0x4000_0000_0000_0000) by (nonlinear_arith)
            requires -0x8000_0000 <= cell_height <= 0x7fff_ffff, -0x8000_0000 <= base <= 0x7fff_ffff;
    }
    min64(cell_height as i64 * base as i64, max_disp_y as i64) as i32
}

} // verus!
