//! The negotiation legalizer from end to end: read the design's cells in, negotiate, write back.

use vstd::prelude::*;
use crate::arith::{ceil_quot, imax, imin, round_quot};
use crate::consts::{MAX_DISP_MULTIPLIER, MAX_DISP_THRESHOLD, MAX_ITER_NEG, MAX_ITER_NEG2};
use crate::grid::{is_kept, offers, Grid, GridError, GridInput};
use crate::neg_grid::{agrees_at, Board, NegGrid, NegPixel, NegStamp};
use crate::neg_rules::NegRules;
use crate::negotiate::{cell_width_in_sites, clamp0, effective_row_cap, effective_site_window, enters_model, init_position, nearest_ix, Options};
use crate::place::{Legalized, Placed};
use crate::run::{is_run, run_negotiation, Event, Negotiation, Outcome};
use crate::sweep::{cell_ok, claimed, claims, covers, kin, lemma_claims_bound, negotiation_iter, priced_to, same_capacity, sweep_ok, sync_all_cells_to_grid, synced, FixedPaint, SweepCell, SweepCtx, SweepRules, CELL_LIMIT, COORD_LIMIT, PRICE_LIMIT};
use crate::tally::{count_up, exclusion_key, exclusion_key_of, is_tally};
use crate::text::{append_decimal, append_signed, contains, decimal, has_part, same_text, signed_decimal, texts};

verus! {

/// An instance of the design. Coordinates are absolute.
#[derive(Debug)]
pub struct NegInst {
    pub name: String,
    pub x: i32,
    pub y: i32,
    /// The master's size.
    pub width: i32,
    pub height: i32,
    pub master_type: String,
    pub status: String,
    /// The master's site.
    pub site: String,
    /// The length of the site's row pattern, 0 without one.
    pub row_pattern_len: usize,
    /// Per grid row, whether the master's power rails let the instance start there.
    pub rails: Vec<bool>,
}

/// What of a design the negotiation legalizer reads.
#[derive(Debug)]
pub struct NegInput {
    pub grid: GridInput,
    pub insts: Vec<NegInst>,
    /// Whether some master is one site wide, so that a gap of one site can be filled.
    pub has_one_site_master: bool,
    pub opts: Options,
}

/// Instances that never move: firm or locked ones, and blocks.
pub open spec fn is_fixed(i: NegInst) -> bool {
    i.status@ == "FIRM"@ || i.status@ == "LOCKED"@ || has_part(i.master_type@, "BLOCK"@)
}

/// Instances that are legalized.
pub open spec fn takes_part(i: NegInst) -> bool {
    !is_fixed(i) && has_part(i.master_type@, "CORE"@) && i.status@ != "NONE"@
}

/// An instance's width in sites.
pub open spec fn sites_wide(g: Grid, i: NegInst) -> int {
    imax(1, imin(round_quot(i.width as int, g.site_width as int), i32::MAX as int))
}

/// An instance's height in rows.
pub open spec fn rows_tall(g: Grid, i: NegInst) -> int {
    match g.row_height() {
        Some(rh) => imax(1, ceil_quot(i.height as int, rh)),
        None => if i.row_pattern_len > 0 { i.row_pattern_len as int } else { 1 },
    }
}

/// The cell of an instance, where it starts.
pub open spec fn cell_for(g: Grid, i: NegInst) -> SweepCell {
    let w = sites_wide(g, i);
    let h = rows_tall(g, i);
    let x = clamp0((i.x - g.core.0) / g.site_width as int, g.row_site_count - w) as i32;
    let y = clamp0(nearest_ix(g.row_y@, i.y - g.core.1), g.row_count - h) as i32;
    SweepCell { name: i.name, x, y, init_x: x, init_y: y, width: w as i32, height: h as i32, fixed: false }
}

/// The box a fixed instance takes away: what it covers.
pub open spec fn fixed_box(g: Grid, i: NegInst) -> (i32, i32, i32, i32) {
    let c = g.cover(i.x - g.core.0, i.y - g.core.1, i.width as int, i.height as int);
    (c.0 as i32, c.1 as i32, (c.2 - c.0) as i32, (c.3 - c.1) as i32)
}

/// The board before any cell: capacity where the grid is valid.
pub open spec fn blank_board(g: Grid) -> Board {
    let w = g.row_site_count as int;
    Board {
        pixels: Seq::new((w * g.row_count) as nat, |k: int| NegPixel {
            usage: 0,
            hist_cost: 1,
            capacity: if g.px(k % w, k / w).is_valid { 1 } else { 0 },
            cell: None,
        }),
        width: w,
        height: g.row_count as int,
    }
}

/// What reading the first instances in gives.
pub struct Intake {
    pub cells: Seq<SweepCell>,
    pub board: Board,
    pub fixed: Seq<(i32, i32, i32, i32)>,
    /// The instance of each cell.
    pub of: Seq<int>,
}

/// The first `n` instances read in: fixed ones take their squares away, the others that take part
/// claim theirs.
pub open spec fn intake(g: Grid, insts: Seq<NegInst>, n: int) -> Intake
    decreases n,
{
    if n <= 0 {
        Intake { cells: Seq::empty(), board: blank_board(g), fixed: Seq::empty(), of: Seq::empty() }
    } else {
        let p = intake(g, insts, n - 1);
        let i = insts[n - 1];
        if is_fixed(i) {
            let b = fixed_box(g, i);
            Intake {
                board: p.board.stamp(b.0 as int, b.1 as int, b.2 as int, b.3 as int, NegStamp::Blockade),
                fixed: p.fixed.push(b),
                ..p
            }
        } else if !takes_part(i) {
            p
        } else {
            let c = cell_for(g, i);
            Intake {
                board: p.board.stamp(c.x as int, c.y as int, c.width as int, c.height as int, NegStamp::Claim(1i32)),
                cells: p.cells.push(c),
                of: p.of.push(n - 1),
                ..p
            }
        }
    }
}

/// The keys of those of the first `n` instances that are neither fixed nor take part.
pub open spec fn excluded(insts: Seq<NegInst>, n: int) -> Seq<Seq<char>>
    decreases n,
{
    if n <= 0 {
        Seq::empty()
    } else {
        let i = insts[n - 1];
        let s = excluded(insts, n - 1);
        if is_fixed(i) || takes_part(i) { s } else { s.push(exclusion_key(i.master_type@, i.status@)) }
    }
}

/// Fixed cells as the occupancy map names them: numbered after the movable ones.
pub open spec fn fixed_paints(it: Intake) -> Seq<FixedPaint> {
    Seq::new(it.fixed.len(), |k: int| ((it.cells.len() + k) as usize, it.fixed[k].0, it.fixed[k].1, it.fixed[k].2, it.fixed[k].3))
}

/// The instances fit the grid and the machine's numbers.
pub open spec fn insts_fit(g: Grid, insts: Seq<NegInst>) -> bool {
    &&& g.row_count <= COORD_LIMIT
    &&& g.row_site_count <= COORD_LIMIT
    &&& insts.len() <= CELL_LIMIT
    &&& forall|k: int| 0 <= k < insts.len() ==> inst_fits(g, #[trigger] insts[k])
}

pub open spec fn inst_fits(g: Grid, i: NegInst) -> bool {
    &&& -COORD_LIMIT <= i.x - g.core.0 <= COORD_LIMIT
    &&& -COORD_LIMIT <= i.y - g.core.1 <= COORD_LIMIT
    &&& 0 <= i.width <= COORD_LIMIT
    &&& 0 <= i.height <= COORD_LIMIT
    &&& i.row_pattern_len <= COORD_LIMIT
    &&& takes_part(i) ==> i.rails@.len() == g.row_count
}

/// An instance in range covers no more sites and rows than the coordinate bound.
proof fn lemma_size_in_range(g: Grid, i: NegInst)
    requires
        g.wf(),
        inst_fits(g, i),
    ensures
        1 <= sites_wide(g, i) <= COORD_LIMIT,
        1 <= rows_tall(g, i) <= COORD_LIMIT,
{
    let w = i.width as int;
    let sw = g.site_width as int;
    let q = round_quot(w, sw);
    assert(0 <= q <= COORD_LIMIT) by (nonlinear_arith)
        requires q == round_quot(w, sw), 0 <= w <= COORD_LIMIT, sw >= 1;
    if let Some(rh) = g.row_height() {
        let h = i.height as int;
        let c = ceil_quot(h, rh);
        assert(0 <= c <= COORD_LIMIT) by (nonlinear_arith)
            requires c == ceil_quot(h, rh), 0 <= h <= COORD_LIMIT, rh >= 1;
    }
}

fn copy_flags(v: &Vec<bool>) -> (r: Vec<bool>)
    ensures
        r@ == v@,
{
    let mut out: Vec<bool> = Vec::new();
    let mut i: usize = 0;
    while i < v.len()
        invariant
            i <= v@.len(),
            out@ == v@.subrange(0, i as int),
        decreases v@.len() - i,
    {
        out.push(v[i]);
        i = i + 1;
        assert(out@ =~= v@.subrange(0, i as int));
    }
    assert(out@ =~= v@);
    out
}

fn inst_is_fixed(i: &NegInst) -> (r: bool)
    ensures
        r == is_fixed(*i),
{
    same_text(i.status.as_str(), "FIRM") || same_text(i.status.as_str(), "LOCKED") || contains(i.master_type.as_str(), "BLOCK")
}

/// The cells read in, with the grid they claim and what the rules need of each.
struct Read {
    cells: Vec<SweepCell>,
    grid: NegGrid,
    fixed: Vec<(i32, i32, i32, i32)>,
    sites: Vec<String>,
    rails: Vec<Vec<bool>>,
    /// Instances left out, counted.
    excluded: Vec<(String, usize)>,
}

/// What holds while instances are read in.
spec fn read_ok(g: Grid, insts: Seq<NegInst>, n: int, r: Read) -> bool {
    let it = intake(g, insts, n);
    &&& r.cells@ == it.cells
    &&& r.grid.board() == it.board
    &&& r.fixed@ == it.fixed
    &&& r.cells@.len() <= n
    &&& r.fixed@.len() <= n
    &&& is_tally(r.excluded@, excluded(insts, n))
    &&& excluded(insts, n).len() <= n
    &&& it.of.len() == r.cells@.len()
    &&& r.sites@.len() == r.cells@.len()
    &&& r.rails@.len() == r.cells@.len()
    &&& forall|k: int| 0 <= k < it.of.len() ==> 0 <= #[trigger] it.of[k] < n && takes_part(insts[it.of[k]])
    &&& forall|k: int| 0 <= k < it.of.len() ==> #[trigger] r.sites@[k] == insts[it.of[k]].site
    &&& forall|k: int| 0 <= k < it.of.len() ==> (#[trigger] r.rails@[k])@ == insts[it.of[k]].rails@
    &&& r.grid.wf()
    &&& r.grid.width == g.row_site_count
    &&& r.grid.height == g.row_count
    &&& claimed(r.cells@, -1, r.grid.board())
    &&& priced_to(r.grid.board(), 1)
    &&& forall|k: int| 0 <= k < r.cells@.len() ==> cell_ok(#[trigger] r.cells@[k]) && !r.cells@[k].fixed
}

/// Pushing a cell adds its claim.
proof fn lemma_claims_push(cells: Seq<SweepCell>, c: SweepCell, n: int, gx: int, gy: int)
    requires
        0 <= n <= cells.len(),
    ensures
        claims(cells.push(c), n, -1, gx, gy) == claims(cells, n, -1, gx, gy),
    decreases n,
{
    if n > 0 {
        lemma_claims_push(cells, c, n - 1, gx, gy);
    }
}

/// Read one instance in.
fn read_inst(g: &Grid, insts: &Vec<NegInst>, n: usize, r: &mut Read)
    requires
        g.wf(),
        insts_fit(*g, insts@),
        n < insts@.len(),
        read_ok(*g, insts@, n as int, *old(r)),
    ensures
        read_ok(*g, insts@, n + 1, *final(r)),
{
    let inst = &insts[n];
    let ghost it = intake(*g, insts@, n as int);
    let ghost r0 = *r;
    assert(inst_fits(*g, insts@[n as int]));
    let rx: i32 = inst.x - g.core.0;
    let ry: i32 = inst.y - g.core.1;
    if inst_is_fixed(inst) {
        let (x0, y0, x1, y1) = g.covering(rx, ry, inst.width, inst.height);
        proof {
            let sw = g.site_width as int;
            let w = inst.width as int;
            assert(ceil_quot(w, sw) <= w + 1) by (nonlinear_arith)
                requires sw > 0, w >= 0, ceil_quot(w, sw) == -((-w) / sw);
            if rx >= 0 {
                crate::arith::lemma_quot_bound(rx as int, sw);
            } else {
                crate::arith::lemma_quot_bound(-(rx as int), sw);
            }
        }
        let b: (i32, i32, i32, i32) = (x0 as i32, y0 as i32, (x1 - x0) as i32, (y1 - y0) as i32);
        assert(b == fixed_box(*g, insts@[n as int]));
        r.grid.blockade(b.0, b.1, b.2, b.3);
        r.fixed.push(b);
        proof {
            let g0 = r0.grid;
            let g1 = r.grid;
            assert forall|gx: int, gy: int| #![trigger g1.board().sq(gx, gy)] g1.board().on(gx, gy) implies {
                let d = g1.board().sq(gx, gy).usage - claims(r.cells@, r.cells@.len() as int, -1, gx, gy);
                &&& if g1.board().sq(gx, gy).capacity == 0 { -(r.cells@.len() as int) <= d <= 1 } else { d == 0 }
                &&& 1 <= g1.board().sq(gx, gy).hist_cost <= 1
            } by {
                assert(g0.on(gx, gy));
                assert(g1.sq(gx, gy) == g1.board().sq(gx, gy));
                assert(g0.sq(gx, gy) == g0.board().sq(gx, gy));
                lemma_claims_bound(r.cells@, r.cells@.len() as int, -1, gx, gy);
            }
        }
        return;
    }
    if !contains(inst.master_type.as_str(), "CORE") || !enters_model(inst.status.as_str(), true) {
        let key = exclusion_key_of(inst.master_type.as_str(), inst.status.as_str());
        count_up(&mut r.excluded, key, Ghost(excluded(insts@, n as int)));
        return;
    }
    let gw: i32 = g.row_site_count as i32;
    let gh: i32 = g.row_count as i32;
    let cw: i32 = cell_width_in_sites(inst.width as i64, g.site_width as i64);
    let ch: i32 = g.grid_height(inst.height, inst.row_pattern_len);
    proof {
        lemma_size_in_range(*g, *inst);
        assert(cw == sites_wide(*g, *inst) && ch == rows_tall(*g, *inst));
    }
    let (gx, gy) = init_position(inst.x as i64, inst.y as i64, g.core.0 as i64, g.core.1 as i64, g.site_width as i64, &g.row_y, cw, ch, gw, gh);
    let c = SweepCell { name: inst.name.clone(), x: gx, y: gy, init_x: gx, init_y: gy, width: cw, height: ch, fixed: false };
    assert(c == cell_for(*g, insts@[n as int]));
    proof {
        assert forall|a: int, b: int| #![trigger r0.grid.sq(a, b)] r0.grid.on(a, b) implies
            i32::MIN < r0.grid.sq(a, b).usage + 1 <= i32::MAX by {
            assert(r0.grid.board().sq(a, b) == r0.grid.sq(a, b));
            lemma_claims_bound(r0.cells@, r0.cells@.len() as int, -1, a, b);
        }
    }
    r.grid.add_usage(gx, gy, cw, ch, 1);
    r.cells.push(c);
    r.sites.push(inst.site.clone());
    r.rails.push(copy_flags(&inst.rails));
    proof {
        let g0 = r0.grid;
        let g1 = r.grid;
        let m = r0.cells@.len() as int;
        assert forall|a: int, b: int| #![trigger g1.board().sq(a, b)] g1.board().on(a, b) implies {
            let d = g1.board().sq(a, b).usage - claims(r.cells@, r.cells@.len() as int, -1, a, b);
            &&& if g1.board().sq(a, b).capacity == 0 { -(r.cells@.len() as int) <= d <= 1 } else { d == 0 }
            &&& 1 <= g1.board().sq(a, b).hist_cost <= 1
        } by {
            assert(g0.on(a, b));
            assert(g1.sq(a, b) == g1.board().sq(a, b));
            assert(g0.sq(a, b) == g0.board().sq(a, b));
            lemma_claims_push(r0.cells@, c, m, a, b);
            lemma_claims_bound(r0.cells@, m, -1, a, b);
            assert(r.cells@ == r0.cells@.push(c));
            assert(claims(r.cells@, m + 1, -1, a, b) == claims(r.cells@, m, -1, a, b) + (if covers(c, a, b) { 1int } else { 0int }));
        }
    }
}

/// Read the design's instances in.
fn read_insts(g: &Grid, insts: &Vec<NegInst>) -> (r: Read)
    requires
        g.wf(),
        insts_fit(*g, insts@),
    ensures
        read_ok(*g, insts@, insts@.len() as int, r),
{
    let valid = |x: usize, y: usize| -> (b: bool)
        requires
            g.wf(),
        ensures
            x < g.row_site_count && y < g.row_count ==> b == g.px(x as int, y as int).is_valid,
            !(x < g.row_site_count && y < g.row_count) ==> !b,
        { x < g.row_site_count && y < g.row_count && g.pixels[y][x].is_valid };
    let ghost f = |x: int, y: int| 0 <= x < g.row_site_count && 0 <= y < g.row_count && g.px(x, y).is_valid;
    proof {
        assert(g.row_site_count * g.row_count == g.row_count * g.row_site_count) by (nonlinear_arith);
    }
    let ng = NegGrid::build(g.row_site_count, g.row_count, &valid);
    proof {
        assert(agrees_at(valid, f));
        let want = blank_board(*g);
        assert forall|k: int| 0 <= k < ng.pixels@.len() implies ng.pixels@[k] == want.pixels[k] by {
            ng.lemma_cell_of(k);
            let x = k % ng.width as int;
            let y = k / ng.width as int;
            assert(ng.sq(x, y) == ng.pixels@[k]);
            assert(f(x, y) == g.px(x, y).is_valid);
        }
        assert(ng.pixels@ =~= want.pixels);
        assert(ng.board() == want);
        assert forall|gx: int, gy: int| #![trigger ng.board().sq(gx, gy)] ng.board().on(gx, gy) implies
            ng.board().sq(gx, gy).usage == 0 && ng.board().sq(gx, gy).hist_cost == 1 by {
            assert(ng.on(gx, gy));
            assert(ng.sq(gx, gy) == ng.board().sq(gx, gy));
        }
    }
    let mut r = Read { cells: Vec::new(), grid: ng, fixed: Vec::new(), sites: Vec::new(), rails: Vec::new(), excluded: Vec::new() };
    assert(r.cells@ =~= Seq::<SweepCell>::empty());
    assert(r.fixed@ =~= Seq::<(i32, i32, i32, i32)>::empty());
    let mut n: usize = 0;
    while n < insts.len()
        invariant
            n <= insts@.len(),
            g.wf(),
            insts_fit(*g, insts@),
            read_ok(*g, insts@, n as int, r),
        decreases insts@.len() - n,
    {
        read_inst(g, insts, n, &mut r);
        n = n + 1;
    }
    r
}

// ── who takes part in the negotiation ────────────────────────────────────────────────────────

/// Whether cell `c` lies in the search window of the cell `seed`.
pub open spec fn in_seed_window(o: Options, seed: SweepCell, c: SweepCell, grid_h: int) -> bool {
    let (base, rows) = (o.site_search_window as int, o.row_search_window as int);
    let sw = imin(if o.disable_window_extension || base == 0 { base } else { imax(base, seed.width as int) }, o.max_displacement_x as int);
    let rc = imin(if o.disable_window_extension { rows } else { seed.height * rows }, o.max_displacement_y as int);
    &&& seed.x - sw <= c.x <= seed.x + seed.width + sw
    &&& imax(seed.y - rc, 0) <= c.y <= imin(seed.y + seed.height + rc, grid_h - 1)
}

/// Whether cell `i` is active from the start: it is illegal, or it lies in the search window of one
/// that is, so that there is room to make.
pub open spec fn starts_active(o: Options, cells: Seq<SweepCell>, illegal: Seq<bool>, grid_h: int, i: int) -> bool {
    illegal[i] || exists|j: int| 0 <= j < cells.len() && #[trigger] illegal[j] && in_seed_window(o, cells[j], cells[i], grid_h)
}

/// The active cells below `n`, in ascending order.
pub open spec fn active_upto(o: Options, cells: Seq<SweepCell>, illegal: Seq<bool>, grid_h: int, n: int) -> Seq<usize>
    decreases n,
{
    if n <= 0 {
        Seq::empty()
    } else {
        let s = active_upto(o, cells, illegal, grid_h, n - 1);
        if starts_active(o, cells, illegal, grid_h, n - 1) { s.push((n - 1) as usize) } else { s }
    }
}

/// Does `c` lie in the search window of `seed`?
fn seed_window_holds(o: Options, seed: &SweepCell, c: &SweepCell, grid_h: i32) -> (r: bool)
    requires
        o.ok(),
        cell_ok(*seed),
        cell_ok(*c),
    ensures
        r == in_seed_window(o, *seed, *c, grid_h as int),
{
    proof {
        assert(seed.height * o.row_search_window >= 0) by (nonlinear_arith)
            requires seed.height >= 0, o.row_search_window >= 0;
    }
    let extend: bool = !o.disable_window_extension;
    let sw: i64 = effective_site_window(o.site_search_window, seed.width, o.max_displacement_x, extend) as i64;
    let rc: i64 = effective_row_cap(o.row_search_window, seed.height, o.max_displacement_y, extend) as i64;
    let x_lo: i64 = seed.x as i64 - sw;
    let x_hi: i64 = seed.x as i64 + seed.width as i64 + sw;
    let y_lo: i64 = crate::arith::max64(seed.y as i64 - rc, 0);
    let y_hi: i64 = crate::arith::min64(seed.y as i64 + seed.height as i64 + rc, grid_h as i64 - 1);
    x_lo <= c.x as i64 && c.x as i64 <= x_hi && y_lo <= c.y as i64 && c.y as i64 <= y_hi
}

/// The cells that are active from the start.
fn starting_active(o: Options, cells: &Vec<SweepCell>, illegal: &Vec<bool>, grid_h: i32) -> (r: Vec<usize>)
    requires
        o.ok(),
        cells@.len() == illegal@.len(),
        forall|k: int| 0 <= k < cells@.len() ==> cell_ok(#[trigger] cells@[k]),
    ensures
        r@ == active_upto(o, cells@, illegal@, grid_h as int, cells@.len() as int),
        r@.no_duplicates(),
        forall|k: int| 0 <= k < r@.len() ==> #[trigger] r@[k] < cells@.len(),
{
    let mut seeds: Vec<usize> = Vec::new();
    let mut j: usize = 0;
    while j < cells.len()
        invariant
            j <= cells@.len(),
            cells@.len() == illegal@.len(),
            forall|k: int| 0 <= k < seeds@.len() ==> #[trigger] seeds@[k] < j && illegal@[seeds@[k] as int],
            forall|q: int| 0 <= q < j && #[trigger] illegal@[q] ==> exists|k: int| 0 <= k < seeds@.len() && seeds@[k] == q,
        decreases cells@.len() - j,
    {
        if illegal[j] {
            let ghost before = seeds@;
            seeds.push(j);
            assert forall|q: int| 0 <= q < j + 1 && #[trigger] illegal@[q] implies exists|k: int| 0 <= k < seeds@.len() && seeds@[k] == q by {
                if q < j {
                    let k = choose|k: int| 0 <= k < before.len() && before[k] == q;
                    assert(seeds@[k] == q);
                } else {
                    assert(seeds@[before.len() as int] == q);
                }
            }
        }
        j = j + 1;
    }
    let mut out: Vec<usize> = Vec::new();
    let mut i: usize = 0;
    while i < cells.len()
        invariant
            o.ok(),
            i <= cells@.len(),
            cells@.len() == illegal@.len(),
            forall|k: int| 0 <= k < cells@.len() ==> cell_ok(#[trigger] cells@[k]),
            forall|k: int| 0 <= k < seeds@.len() ==> #[trigger] seeds@[k] < cells@.len() && illegal@[seeds@[k] as int],
            forall|q: int| 0 <= q < cells@.len() && #[trigger] illegal@[q] ==> exists|k: int| 0 <= k < seeds@.len() && seeds@[k] == q,
            out@ == active_upto(o, cells@, illegal@, grid_h as int, i as int),
            out@.no_duplicates(),
            forall|k: int| 0 <= k < out@.len() ==> #[trigger] out@[k] < i,
        decreases cells@.len() - i,
    {
        let mut hit: bool = illegal[i];
        let mut k: usize = 0;
        while k < seeds.len() && !hit
            invariant
                o.ok(),
                i < cells@.len(),
                cells@.len() == illegal@.len(),
                k <= seeds@.len(),
                forall|q: int| 0 <= q < cells@.len() ==> cell_ok(#[trigger] cells@[q]),
                forall|q: int| 0 <= q < seeds@.len() ==> #[trigger] seeds@[q] < cells@.len() && illegal@[seeds@[q] as int],
                hit ==> starts_active(o, cells@, illegal@, grid_h as int, i as int),
                !hit ==> !illegal@[i as int] && forall|q: int| 0 <= q < k ==> !in_seed_window(o, cells@[#[trigger] seeds@[q] as int], cells@[i as int], grid_h as int),
            decreases seeds@.len() - k,
        {
            let sd: usize = seeds[k];
            assert(cell_ok(cells@[sd as int]) && cell_ok(cells@[i as int]));
            hit = seed_window_holds(o, &cells[sd], &cells[i], grid_h);
            assert(illegal@[sd as int]);
            k = k + 1;
        }
        proof {
            if !hit && starts_active(o, cells@, illegal@, grid_h as int, i as int) {
                let q = choose|q: int| 0 <= q < cells@.len() && #[trigger] illegal@[q] && in_seed_window(o, cells@[q], cells@[i as int], grid_h as int);
                let z = choose|z: int| 0 <= z < seeds@.len() && seeds@[z] == q;
                assert(!in_seed_window(o, cells@[seeds@[z] as int], cells@[i as int], grid_h as int));
            }
        }
        if hit {
            out.push(i);
        }
        i = i + 1;
    }
    out
}

// ── the engine ───────────────────────────────────────────────────────────────────────────────

/// What a run changes.
pub struct NegState {
    pub cells: Seq<SweepCell>,
    pub board: Board,
    pub active: Seq<usize>,
}

/// The state after the events `t`. Recovery changes nothing.
pub open spec fn replay<'a>(ctx: SweepCtx<'a, NegRules<'a>>, s: NegState, t: Seq<Event>) -> NegState
    decreases t.len(),
{
    if t.len() == 0 {
        s
    } else {
        let p = replay(ctx, s, t.drop_last());
        match t.last() {
            Event::Iterate { iter, violations } => {
                let r = ctx.swept(p.cells, p.board, p.active, iter);
                NegState { cells: r.cells, board: r.board, active: r.active }
            },
            Event::Recover => p,
        }
    }
}

/// Every sweep of `t` reported the violations that it left.
pub open spec fn honest<'a>(ctx: SweepCtx<'a, NegRules<'a>>, s: NegState, t: Seq<Event>) -> bool
    decreases t.len(),
{
    t.len() == 0 || {
        let p = replay(ctx, s, t.drop_last());
        &&& honest(ctx, s, t.drop_last())
        &&& t.last() matches Event::Iterate { iter, violations } ==> violations == ctx.swept(p.cells, p.board, p.active, iter).violations
    }
}

/// A negotiation under way.
struct NegEngine<'a> {
    cells: Vec<SweepCell>,
    active: Vec<usize>,
    grid: NegGrid,
    ctx: SweepCtx<'a, NegRules<'a>>,
    trace: Ghost<Seq<Event>>,
    start: Ghost<NegState>,
    left: Ghost<int>,
}

impl<'a> NegEngine<'a> {
    spec fn state(&self) -> NegState {
        NegState { cells: self.cells@, board: self.grid.board(), active: self.active@ }
    }
}

/// What holds of cells, grid and active set between sweeps, with `left` sweeps still to come.
spec fn between_sweeps<'a>(ctx: SweepCtx<'a, NegRules<'a>>, cells: Seq<SweepCell>, grid: NegGrid, active: Seq<usize>, left: int) -> bool {
    &&& ctx.ok()
    &&& grid.wf()
    &&& cells.len() <= CELL_LIMIT
    &&& forall|i: int| 0 <= i < cells.len() ==> cell_ok(#[trigger] cells[i])
    &&& forall|i: int| 0 <= i < cells.len() ==> #[trigger] ctx.rules.knows(i)
    &&& claimed(cells, -1, grid.board())
    &&& 0 <= left
    &&& priced_to(grid.board(), PRICE_LIMIT - cells.len() * left)
    &&& active.no_duplicates()
    &&& forall|k: int| 0 <= k < active.len() ==> #[trigger] active[k] < cells.len()
}

impl<'a> Negotiation for NegEngine<'a> {
    type Setting = (SweepCtx<'a, NegRules<'a>>, NegState, nat);

    closed spec fn setting(&self) -> (SweepCtx<'a, NegRules<'a>>, NegState, nat) {
        (self.ctx, self.start@, self.cells@.len())
    }

    closed spec fn inv(&self) -> bool {
        &&& between_sweeps(self.ctx, self.cells@, self.grid, self.active@, self.left@)
        &&& self.state() == replay(self.ctx, self.start@, self.trace@)
        &&& kin(self.cells@, self.start@.cells)
        &&& same_capacity(self.grid.board(), self.start@.board)
        &&& honest(self.ctx, self.start@, self.trace@)
    }

    closed spec fn budget(&self) -> int {
        self.left@
    }

    closed spec fn trace(&self) -> Seq<Event> {
        self.trace@
    }

    fn iterate(&mut self, iter: i32) -> (violations: i128) {
        let ghost n = self.cells@.len() as int;
        let ghost b0 = self.grid.board();
        let ghost left = self.left@;
        let ghost t0 = self.trace@;
        proof {
            assert(n * left >= 0) by (nonlinear_arith)
                requires n >= 0, left >= 0;
            assert(n * left - n == n * (left - 1)) by (nonlinear_arith);
            assert forall|gx: int, gy: int| #![trigger b0.sq(gx, gy)] b0.on(gx, gy) implies 1 <= b0.sq(gx, gy).hist_cost <= PRICE_LIMIT by {}
            assert(sweep_ok(&self.ctx, self.cells@, self.grid));
        }
        let violations: i128 = negotiation_iter(self.cells.as_mut_slice(), &mut self.active, iter, &self.ctx, &mut self.grid);
        proof {
            assert(priced_to(b0, PRICE_LIMIT - n * left));
            assert(priced_to(self.grid.board(), PRICE_LIMIT - n * left + n));
        }
        let ghost e = Event::Iterate { iter: iter as int, violations: violations as int };
        self.trace = Ghost(self.trace@.push(e));
        self.left = Ghost(self.left@ - 1);
        proof {
            assert(self.trace@.drop_last() =~= t0);
        }
        violations
    }

    fn recover(&mut self) {
        let ghost t0 = self.trace@;
        self.trace = Ghost(self.trace@.push(Event::Recover));
        proof {
            assert(self.trace@.drop_last() =~= t0);
        }
    }
}

// ── the result ───────────────────────────────────────────────────────────────────────────────

/// The first row without sites, from `y + dy` on.
pub open spec fn first_closed<'a>(rules: NegRules<'a>, y: int, h: int, dy: int) -> int
    decreases h - dy,
{
    if dy >= h || !rules.row_open(y + dy) { y + dy } else { first_closed(rules, y, h, dy + 1) }
}

/// Why a cell could not be seated.
pub open spec fn refusal<'a>(rules: NegRules<'a>, i: int, c: SweepCell) -> Seq<char> {
    let gw = rules.grid.row_site_count as int;
    let gh = rules.grid.row_count as int;
    c.name@ + ": "@ + if c.x < 0 || c.y < 0 || c.y + c.height > gh || c.x + c.width > gw {
        "a "@ + signed_decimal(c.width as int) + "x"@ + signed_decimal(c.height as int) + " cell at ("@ + signed_decimal(c.x as int) + ", "@
            + signed_decimal(c.y as int) + ") does not fit the "@ + signed_decimal(gw) + "x"@ + signed_decimal(gh) + " grid"@
    } else if exists|dy: int| 0 <= dy < c.height && !#[trigger] rules.row_open(c.y + dy) {
        "row "@ + signed_decimal(first_closed(rules, c.y as int, c.height as int, 0)) + " has no sites"@
    } else if !(c.y < gh && offers(rules.grid.row_sites@[c.y as int]@, c.x as int, rules.sites@[i]@)) {
        "row "@ + signed_decimal(c.y as int) + " does not offer site `"@ + rules.sites@[i]@ + "` at x "@ + signed_decimal(c.x as int)
    } else {
        "power rails do not match row "@ + signed_decimal(c.y as int) + " for a "@ + signed_decimal(c.height as int) + "-row cell"@
    }
}

/// Say why a cell could not be seated.
fn refusal_text<'a>(rules: &NegRules<'a>, i: usize, c: &SweepCell) -> (r: String)
    requires
        rules.wf(),
        i < rules.sites@.len(),
        cell_ok(*c),
    ensures
        r@ == refusal(*rules, i as int, *c),
{
    let gw: i64 = rules.grid.row_site_count as i64;
    let gh: i64 = rules.grid.row_count as i64;
    let mut s = c.name.clone();
    s.append(": ");
    let ghost head = s@;
    if c.x < 0 || c.y < 0 || c.y as i64 + c.height as i64 > gh || c.x as i64 + c.width as i64 > gw {
        s.append("a ");
        append_signed(&mut s, c.width as i128);
        s.append("x");
        append_signed(&mut s, c.height as i128);
        s.append(" cell at (");
        append_signed(&mut s, c.x as i128);
        s.append(", ");
        append_signed(&mut s, c.y as i128);
        s.append(") does not fit the ");
        append_signed(&mut s, gw as i128);
        s.append("x");
        append_signed(&mut s, gh as i128);
        s.append(" grid");
        assert(s@ =~= refusal(*rules, i as int, *c));
        return s;
    }
    let mut dy: i32 = 0;
    while dy < c.height && rules.row_has[(c.y + dy) as usize]
        invariant
            rules.wf(),
            0 <= c.y,
            0 <= dy <= c.height,
            c.y + c.height <= rules.grid.row_count,
            forall|d: int| 0 <= d < dy ==> #[trigger] rules.row_open(c.y + d),
            first_closed(*rules, c.y as int, c.height as int, dy as int) == first_closed(*rules, c.y as int, c.height as int, 0),
        decreases c.height - dy,
    {
        assert(rules.row_open(c.y + dy));
        dy = dy + 1;
    }
    if dy < c.height {
        assert(!rules.row_open(c.y + dy));
        s.append("row ");
        append_signed(&mut s, c.y as i128 + dy as i128);
        s.append(" has no sites");
        assert(s@ =~= refusal(*rules, i as int, *c));
        return s;
    }
    if !rules.grid.site_valid_at(c.x as i64, c.y as i64, rules.sites[i].as_str()) {
        s.append("row ");
        append_signed(&mut s, c.y as i128);
        s.append(" does not offer site `");
        s.append(rules.sites[i].as_str());
        s.append("` at x ");
        append_signed(&mut s, c.x as i128);
        assert(s@ =~= refusal(*rules, i as int, *c));
        return s;
    }
    s.append("power rails do not match row ");
    append_signed(&mut s, c.y as i128);
    s.append(" for a ");
    append_signed(&mut s, c.height as i128);
    s.append("-row cell");
    assert(s@ =~= refusal(*rules, i as int, *c));
    s
}

/// Whether cell `i` is seated.
pub open spec fn seated<'a>(rules: NegRules<'a>, i: int, c: SweepCell) -> bool {
    rules.site_ok(i, c.width as int, c.height as int, c.x as int, c.y as int)
}

/// What is written back of a seated cell: absolute coordinates, and the orientation of its row.
pub open spec fn write_back(g: Grid, c: SweepCell) -> Placed {
    Placed {
        name: c.name,
        x: (c.x * g.site_width + g.core.0) as i32,
        y: (g.row_y@[c.y as int] + g.core.1) as i32,
        orient: Some(g.row_orient@[c.y as int]),
        moved: c.x != c.init_x || c.y != c.init_y,
        init_grid: Some((c.init_x, c.init_y)),
        footprint: Some((c.width, c.height)),
    }
}

/// The seated cells below `n`.
pub open spec fn placed_upto<'a>(rules: NegRules<'a>, cells: Seq<SweepCell>, n: int) -> Seq<Placed>
    decreases n,
{
    if n <= 0 {
        Seq::empty()
    } else {
        let s = placed_upto(rules, cells, n - 1);
        if seated(rules, n - 1, cells[n - 1]) { s.push(write_back(*rules.grid, cells[n - 1])) } else { s }
    }
}

/// The refusals below `n`.
pub open spec fn refused_upto<'a>(rules: NegRules<'a>, cells: Seq<SweepCell>, n: int) -> Seq<Seq<char>>
    decreases n,
{
    if n <= 0 {
        Seq::empty()
    } else {
        let s = refused_upto(rules, cells, n - 1);
        if seated(rules, n - 1, cells[n - 1]) { s } else { s.push(refusal(rules, n - 1, cells[n - 1])) }
    }
}

/// What the legalizer leaves out, named on every run.
pub open spec fn left_out() -> Seq<Seq<char>> {
    seq![
        "groups_and_regions (respectsFence / initFenceRegions)"@,
        "master_symmetry (checkMasterSym)"@,
        "drc: padding, edge_spacing and blocked_layers are not evaluated by the legalizer"@,
        "drc_history_costs (updateDrcHistoryCosts)"@,
        "diamondRecovery on stall"@,
        "incremental placement"@,
    ]
}

/// What the legalizer leaves out.
pub fn not_done() -> (r: Vec<String>)
    ensures
        texts(r@) == left_out(),
{
    let mut v: Vec<String> = Vec::new();
    v.push("groups_and_regions (respectsFence / initFenceRegions)".to_owned());
    v.push("master_symmetry (checkMasterSym)".to_owned());
    v.push("drc: padding, edge_spacing and blocked_layers are not evaluated by the legalizer".to_owned());
    v.push("drc_history_costs (updateDrcHistoryCosts)".to_owned());
    v.push("diamondRecovery on stall".to_owned());
    v.push("incremental placement".to_owned());
    assert(texts(v@) =~= left_out());
    v
}

/// How a run that did not converge is reported.
pub open spec fn outcome_note(o: Outcome) -> Seq<Seq<char>> {
    match o {
        Outcome::Converged { phase, iter } => Seq::empty(),
        Outcome::StalledIntoRecovery { phase, iter, violations } => seq![
            "did not converge: StalledIntoRecovery { phase: "@ + decimal(phase as nat) + ", iter: "@ + signed_decimal(iter as int)
                + ", violations: "@ + signed_decimal(violations as int) + " }"@
        ],
        Outcome::Exhausted { violations } => seq!["did not converge: Exhausted { violations: "@ + signed_decimal(violations as int) + " }"@],
    }
}

fn note_outcome(v: &mut Vec<String>, o: &Outcome)
    ensures
        texts(final(v)@) == texts(old(v)@) + outcome_note(*o),
{
    let ghost v0 = v@;
    match o {
        Outcome::Converged { .. } => {},
        Outcome::StalledIntoRecovery { phase, iter, violations } => {
            let mut s = "did not converge: StalledIntoRecovery { phase: ".to_owned();
            append_decimal(&mut s, *phase as u128);
            s.append(", iter: ");
            append_signed(&mut s, *iter as i128);
            s.append(", violations: ");
            append_signed(&mut s, *violations);
            s.append(" }");
            v.push(s);
        },
        Outcome::Exhausted { violations } => {
            let mut s = "did not converge: Exhausted { violations: ".to_owned();
            append_signed(&mut s, *violations);
            s.append(" }");
            v.push(s);
        },
    }
    assert(texts(v@) =~= texts(v0) + outcome_note(*o));
}

/// Whether `ctx` is the context of this design on this grid.
pub open spec fn ctx_for<'a>(g: Grid, d: NegInput, ctx: SweepCtx<'a, NegRules<'a>>) -> bool {
    let it = intake(g, d.insts@, d.insts@.len() as int);
    let rules = *ctx.rules;
    &&& *rules.grid == g
    &&& rules.wf()
    &&& rules.sites@.len() == it.cells.len()
    &&& forall|k: int| 0 <= k < it.cells.len() ==> #[trigger] rules.sites@[k] == d.insts@[it.of[k]].site
    &&& forall|k: int| 0 <= k < it.cells.len() ==> (#[trigger] rules.rails@[k])@ == d.insts@[it.of[k]].rails@
    &&& rules.gaps_disallowed == !d.has_one_site_master
    &&& forall|r: int| 0 <= r < g.row_count ==> #[trigger] rules.row_has@[r]
        == exists|x: int| 0 <= x < g.row_site_count && (#[trigger] it.board.sq(x, r)).capacity > 0
    &&& ctx.fixed_paint@ == fixed_paints(it)
    &&& ctx.max_disp_multiplier == MAX_DISP_MULTIPLIER
    &&& ctx.max_disp_threshold == MAX_DISP_THRESHOLD
    &&& ctx.drc_penalty == d.opts.drc_penalty
    &&& rules.opts == d.opts
}

/// Where the negotiation of a design starts: the cells read in, the stamps set, the illegal cells
/// and their surroundings active.
pub open spec fn start_state<'a>(g: Grid, d: NegInput, ctx: SweepCtx<'a, NegRules<'a>>) -> NegState {
    let it = intake(g, d.insts@, d.insts@.len() as int);
    let board = synced(it.board, it.cells, fixed_paints(it));
    let illegal = Seq::new(it.cells.len(), |i: int| !ctx.legal(i, it.cells[i], board));
    NegState { cells: it.cells, board, active: active_upto(d.opts, it.cells, illegal, g.row_count as int, it.cells.len() as int) }
}

/// Whether `out` is the legalization of a design on its grid, by a run with the events `t` that
/// ended with `o`.
pub open spec fn is_legalized<'a>(g: Grid, d: NegInput, ctx: SweepCtx<'a, NegRules<'a>>, t: Seq<Event>, o: Outcome, out: Legalized) -> bool {
    let s = start_state(g, d, ctx);
    let f = replay(ctx, s, t);
    let it = intake(g, d.insts@, d.insts@.len() as int);
    &&& ctx_for(g, d, ctx)
    &&& kin(f.cells, it.cells)
    &&& same_capacity(f.board, it.board)
    &&& claimed(f.cells, -1, f.board)
    &&& if s.active.len() == 0 {
        t.len() == 0 && o == (Outcome::Converged { phase: 1, iter: 0 })
    } else {
        is_run(MAX_ITER_NEG as int, MAX_ITER_NEG2 as int, t, o)
    }
    &&& honest(ctx, s, t)
    &&& out.placed@ == placed_upto(*ctx.rules, f.cells, f.cells.len() as int)
    &&& texts(out.failures@) == refused_upto(*ctx.rules, f.cells, f.cells.len() as int)
    &&& texts(out.not_done@) == left_out() + outcome_note(o)
    &&& is_tally(out.filtered_out@, excluded(d.insts@, d.insts@.len() as int))
}

/// Whether `out` is a legalization of the design.
pub open spec fn legalizes(d: NegInput, out: Legalized) -> bool {
    exists|g: Grid, ctx: SweepCtx<NegRules>, t: Seq<Event>, o: Outcome| d.grid.makes(g) && #[trigger] is_legalized(g, d, ctx, t, o, out)
}

/// The design's rows fit absolute coordinates.
pub open spec fn rows_fit(d: GridInput) -> bool {
    forall|k: int| 0 <= k < d.rows@.len() ==> i32::MIN <= (#[trigger] d.rows@[k]).y + d.rows@[k].site_height <= i32::MAX
}

/// Every row boundary of a grid has an absolute Y.
pub proof fn lemma_rows_absolute(d: GridInput, g: Grid, y: int)
    requires
        d.makes(g),
        rows_fit(d),
        0 <= y <= g.row_count,
    ensures
        i32::MIN <= g.row_y@[y] + g.core.1 <= i32::MAX,
{
    let v = g.row_y@[y];
    assert(g.row_y@.contains(v));
    assert(d.is_edge(d.rows@.len() as int, v as int));
    let k = choose|k: int| 0 <= k < d.rows@.len() && is_kept(#[trigger] d.rows@[k]) && (d.rel_y(k) == v || d.rel_top(k) == v);
    assert(i32::MIN <= d.rows@[k].y + d.rows@[k].site_height <= i32::MAX);
}

/// Every column of a grid has an absolute X.
pub proof fn lemma_columns_absolute(d: GridInput, g: Grid, x: int)
    requires
        d.makes(g),
        0 <= x <= g.row_site_count,
    ensures
        0 <= x * g.site_width <= i32::MAX,
        i32::MIN <= x * g.site_width + g.core.0 <= i32::MAX,
{
    let sw = g.site_width as int;
    let cols = g.row_site_count as int;
    let a = g.core.2 - g.core.0;
    assert(0 <= x * sw <= cols * sw) by (nonlinear_arith)
        requires 0 <= x <= cols, sw > 0;
    if a >= 0 {
        crate::arith::lemma_quot_bound(a, sw);
        assert(cols * sw <= a);
    } else {
        crate::arith::lemma_quot_bound(-a, sw);
        assert(cols == 0);
        assert(cols * sw == 0) by (nonlinear_arith)
            requires cols == 0;
    }
}

/// Which rows of the grid have a usable square.
fn open_rows(ng: &NegGrid) -> (r: Vec<bool>)
    requires
        ng.wf(),
    ensures
        r@.len() == ng.height,
        forall|y: int| 0 <= y < ng.height ==> #[trigger] r@[y] == ng.row_usable(y),
{
    let mut out: Vec<bool> = Vec::new();
    let mut y: usize = 0;
    while y < ng.height
        invariant
            ng.wf(),
            y <= ng.height,
            out@.len() == y,
            forall|k: int| 0 <= k < y ==> #[trigger] out@[k] == ng.row_usable(k),
        decreases ng.height - y,
    {
        out.push(ng.row_has_sites(y as i32));
        y = y + 1;
    }
    out
}

/// Which cells are not legal where they start.
fn find_illegal<'a>(ctx: &SweepCtx<'a, NegRules<'a>>, cells: &Vec<SweepCell>, grid: &NegGrid) -> (r: Vec<bool>)
    requires
        grid.wf(),
        forall|i: int| 0 <= i < cells@.len() ==> cell_ok(#[trigger] cells@[i]),
        forall|i: int| 0 <= i < cells@.len() ==> #[trigger] ctx.rules.knows(i),
    ensures
        r@ == Seq::new(cells@.len(), |i: int| !ctx.legal(i, cells@[i], grid.board())),
{
    let mut out: Vec<bool> = Vec::new();
    let mut i: usize = 0;
    while i < cells.len()
        invariant
            grid.wf(),
            i <= cells@.len(),
            forall|k: int| 0 <= k < cells@.len() ==> cell_ok(#[trigger] cells@[k]),
            forall|k: int| 0 <= k < cells@.len() ==> #[trigger] ctx.rules.knows(k),
            out@.len() == i,
            forall|k: int| 0 <= k < i ==> #[trigger] out@[k] == !ctx.legal(k, cells@[k], grid.board()),
        decreases cells@.len() - i,
    {
        assert(ctx.rules.knows(i as int));
        out.push(!ctx.cell_is_legal(i, &cells[i], grid));
        i = i + 1;
    }
    assert(out@ =~= Seq::new(cells@.len(), |i: int| !ctx.legal(i, cells@[i], grid.board())));
    out
}

/// Write the seated cells back and say why the others were refused.
fn report<'a>(d: &GridInput, rules: &NegRules<'a>, cells: &Vec<SweepCell>, o: &Outcome, filtered: Vec<(String, usize)>) -> (r: Legalized)
    requires
        rules.wf(),
        d.makes(*rules.grid),
        rows_fit(*d),
        rules.sites@.len() == cells@.len(),
        forall|k: int| 0 <= k < cells@.len() ==> cell_ok(#[trigger] cells@[k]),
    ensures
        r.placed@ == placed_upto(*rules, cells@, cells@.len() as int),
        texts(r.failures@) == refused_upto(*rules, cells@, cells@.len() as int),
        texts(r.not_done@) == left_out() + outcome_note(*o),
        r.filtered_out == filtered,
{
    let g = rules.grid;
    let mut placed: Vec<Placed> = Vec::new();
    let mut failures: Vec<String> = Vec::new();
    let mut i: usize = 0;
    assert(texts(failures@) =~= Seq::<Seq<char>>::empty());
    while i < cells.len()
        invariant
            rules.wf(),
            g == rules.grid,
            d.makes(*rules.grid),
            rows_fit(*d),
            rules.sites@.len() == cells@.len(),
            forall|k: int| 0 <= k < cells@.len() ==> cell_ok(#[trigger] cells@[k]),
            i <= cells@.len(),
            placed@ == placed_upto(*rules, cells@, i as int),
            texts(failures@) == refused_upto(*rules, cells@, i as int),
        decreases cells@.len() - i,
    {
        let c = &cells[i];
        assert(cell_ok(cells@[i as int]));
        if !rules.may_sit(i, c.width, c.height, c.x, c.y) {
            let ghost before = failures@;
            failures.push(refusal_text(rules, i, c));
            assert(texts(failures@) =~= texts(before).push(refusal(*rules, i as int, *c)));
        } else {
            proof {
                lemma_rows_absolute(*d, *g, c.y as int);
                lemma_columns_absolute(*d, *g, c.x as int);
            }
            let nx: i32 = c.x * g.site_width;
            let ny: i32 = g.row_y[c.y as usize];
            let p = Placed {
                name: c.name.clone(),
                x: nx + g.core.0,
                y: ny + g.core.1,
                orient: g.site_orient_at(c.x as i64, c.y as i64, rules.sites[i].as_str()),
                moved: c.x != c.init_x || c.y != c.init_y,
                init_grid: Some((c.init_x, c.init_y)),
                footprint: Some((c.width, c.height)),
            };
            assert(p == write_back(*g, *c));
            placed.push(p);
        }
        i = i + 1;
    }
    let mut notes = not_done();
    note_outcome(&mut notes, o);
    Legalized { placed, failures, not_done: notes, filtered_out: filtered }
}

/// Legalize a design by negotiation.
///
/// Cells that take part start at their nearest grid position. Illegal cells and the cells around
/// them are negotiated in two phases. What then has a place is written back, with the orientation
/// of the row it landed in; what has none is named with the reason.
pub fn legalize(d: &NegInput) -> (r: Result<Legalized, GridError>)
    requires
        d.grid.in_range(),
        rows_fit(d.grid),
        d.opts.ok(),
        forall|g: Grid| #[trigger] d.grid.makes(g) ==> insts_fit(g, d.insts@),
    ensures
        match r {
            Err(e) => d.grid.refused(e),
            Ok(out) => {
                &&& d.grid.makeable()
                &&& legalizes(*d, out)
            },
        },
{
    let grid = match Grid::build(&d.grid) {
        Err(e) => return Err(e),
        Ok(g) => g,
    };
    assert(insts_fit(grid, d.insts@));
    let read = read_insts(&grid, &d.insts);
    let ghost it = intake(grid, d.insts@, d.insts@.len() as int);
    let Read { cells, grid: mut ngrid, fixed, sites, rails, excluded: filtered } = read;
    let count: usize = cells.len();
    let mut fixed_paint: Vec<FixedPaint> = Vec::new();
    let mut k: usize = 0;
    while k < fixed.len()
        invariant
            k <= fixed@.len(),
            fixed@ == it.fixed,
            fixed@.len() <= CELL_LIMIT,
            count == it.cells.len(),
            count <= CELL_LIMIT,
            fixed_paint@ == fixed_paints(it).subrange(0, k as int),
        decreases fixed@.len() - k,
    {
        let (x, y, w, h) = fixed[k];
        fixed_paint.push((count + k, x, y, w, h));
        k = k + 1;
        assert(fixed_paint@ =~= fixed_paints(it).subrange(0, k as int));
    }
    assert(fixed_paint@ =~= fixed_paints(it));
    let row_has = open_rows(&ngrid);
    let ghost ng0 = ngrid;
    let rules = NegRules { grid: &grid, row_has, sites, rails, gaps_disallowed: !d.has_one_site_master, opts: d.opts };
    sync_all_cells_to_grid(cells.as_slice(), fixed_paint.as_slice(), &mut ngrid);
    let ctx = SweepCtx {
        rules: &rules,
        fixed_paint: fixed_paint.as_slice(),
        max_disp_multiplier: MAX_DISP_MULTIPLIER,
        max_disp_threshold: MAX_DISP_THRESHOLD,
        drc_penalty: d.opts.drc_penalty,
    };
    proof {
        assert forall|i: int| 0 <= i < rules.rails@.len() implies (#[trigger] rules.rails@[i])@.len() == rules.grid.row_count by {
            assert(inst_fits(grid, d.insts@[it.of[i]]));
        }
        assert(rules.wf());
        assert forall|r: int| 0 <= r < grid.row_count implies #[trigger] rules.row_has@[r]
            == exists|x: int| 0 <= x < grid.row_site_count && (#[trigger] it.board.sq(x, r)).capacity > 0 by {
            assert(rules.row_has@[r] == ng0.row_usable(r));
            if ng0.row_usable(r) {
                let x = choose|x: int| 0 <= x < ng0.width && (#[trigger] ng0.sq(x, r)).capacity > 0;
                assert(it.board.sq(x, r).capacity > 0);
            }
            if exists|x: int| 0 <= x < grid.row_site_count && (#[trigger] it.board.sq(x, r)).capacity > 0 {
                let x = choose|x: int| 0 <= x < grid.row_site_count && (#[trigger] it.board.sq(x, r)).capacity > 0;
                assert(ng0.sq(x, r).capacity > 0);
            }
        }
        assert(ctx_for(grid, *d, ctx));
        assert forall|i: int| 0 <= i < cells@.len() implies #[trigger] ctx.rules.knows(i) by {}
        let b = ngrid.board();
        assert forall|gx: int, gy: int| #![trigger b.sq(gx, gy)] b.on(gx, gy) implies {
            let dd = b.sq(gx, gy).usage - claims(cells@, cells@.len() as int, -1, gx, gy);
            &&& if b.sq(gx, gy).capacity == 0 { -(cells@.len() as int) <= dd <= 1 } else { dd == 0 }
            &&& b.sq(gx, gy).hist_cost == 1
        } by {
            assert(ng0.on(gx, gy));
            ng0.lemma_ix(gx, gy);
            let q = ng0.ix(gx, gy);
            assert(b.pixels[q].usage == it.board.pixels[q].usage);
            assert(it.board.on(gx, gy));
            let p = it.board.sq(gx, gy);
        }
    }
    let illegal = find_illegal(&ctx, &cells, &ngrid);
    let active = starting_active(d.opts, &cells, &illegal, grid.row_count as i32);
    let ghost s = start_state(grid, *d, ctx);
    assert(s == (NegState { cells: cells@, board: ngrid.board(), active: active@ }));
    if active.len() == 0 {
        let o = Outcome::Converged { phase: 1, iter: 0 };
        let out = report(&d.grid, &rules, &cells, &o, filtered);
        let ghost t = Seq::<Event>::empty();
        assert(is_legalized(grid, *d, ctx, t, o, out));
        assert(d.grid.makes(grid));
        assert(legalizes(*d, out));
        return Ok(out);
    }
    let ghost ctx0 = ctx;
    let mut engine = NegEngine {
        cells,
        active,
        grid: ngrid,
        ctx,
        trace: Ghost(Seq::empty()),
        start: Ghost(s),
        left: Ghost(1400),
    };
    proof {
        let n = engine.cells@.len() as int;
        assert(PRICE_LIMIT - n * 1400 >= 1) by (nonlinear_arith)
            requires 0 <= n <= CELL_LIMIT, CELL_LIMIT == 0x7fff_fff0, PRICE_LIMIT == 0x1000_0000_0000;
        let b = engine.grid.board();
        assert(priced_to(b, PRICE_LIMIT - n * 1400)) by {
            assert forall|gx: int, gy: int| #![trigger b.sq(gx, gy)] b.on(gx, gy) implies 1 <= b.sq(gx, gy).hist_cost <= PRICE_LIMIT - n * 1400 by {
                assert(b.sq(gx, gy).hist_cost == 1);
            }
        }
        assert(between_sweeps(engine.ctx, engine.cells@, engine.grid, engine.active@, engine.left@));
        assert(engine.inv());
    }
    let o = run_negotiation(MAX_ITER_NEG, MAX_ITER_NEG2, &mut engine);
    let out = report(&d.grid, &rules, &engine.cells, &o, filtered);
    proof {
        let t = choose|t: Seq<Event>| engine.trace() == Seq::<Event>::empty() + t && #[trigger] is_run(MAX_ITER_NEG as int, MAX_ITER_NEG2 as int, t, o);
        assert(engine.trace() =~= t);
        assert(is_legalized(grid, *d, ctx0, t, o, out));
    }
    Ok(out)
}

/// No active cell at the start means no illegal one.
proof fn lemma_nobody_active(o: Options, cells: Seq<SweepCell>, illegal: Seq<bool>, grid_h: int, n: int, i: int)
    requires
        active_upto(o, cells, illegal, grid_h, n).len() == 0,
        0 <= i < n,
    ensures
        !illegal[i],
    decreases n,
{
    if i < n - 1 {
        lemma_nobody_active(o, cells, illegal, grid_h, n - 1, i);
    }
}

/// A legalization that converged leaves every cell legal: seated where its site and its rails
/// allow, breaking no gap rule, and alone on its squares.
pub proof fn law_converged_leaves_every_cell_legal<'a>(g: Grid, d: NegInput, ctx: SweepCtx<'a, NegRules<'a>>, t: Seq<Event>, o: Outcome, out: Legalized, i: int)
    requires
        is_legalized(g, d, ctx, t, o, out),
        o is Converged,
        0 <= i < replay(ctx, start_state(g, d, ctx), t).cells.len(),
        i <= usize::MAX,
        !replay(ctx, start_state(g, d, ctx), t).cells[i].fixed,
    ensures
        ({
            let f = replay(ctx, start_state(g, d, ctx), t);
            ctx.legal(i, f.cells[i], f.board)
        }),
{
    let s = start_state(g, d, ctx);
    if s.active.len() == 0 {
        let it = intake(g, d.insts@, d.insts@.len() as int);
        let board = synced(it.board, it.cells, fixed_paints(it));
        let illegal = Seq::new(it.cells.len(), |i: int| !ctx.legal(i, it.cells[i], board));
        lemma_nobody_active(d.opts, it.cells, illegal, g.row_count as int, it.cells.len() as int, i);
    } else {
        crate::run::lemma_converged_ends_clean(MAX_ITER_NEG as int, MAX_ITER_NEG2 as int, crate::run::phase_start(0, None), t);
        let p = replay(ctx, s, t.drop_last());
        match t.last() {
            Event::Iterate { iter, violations } => {
                crate::sweep::law_no_violations_means_legal(ctx, p.cells, p.board, p.active, iter, i);
            },
            Event::Recover => {},
        }
    }
}

} // verus!
