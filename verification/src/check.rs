//! Is every cell legally placed? Nine families of checks over a design's cells, in the order of
//! their names.

use vstd::prelude::*;
use crate::arith::imin;
use crate::drc::{agrees2, check_blocked_layers, check_padding, class_of, classify, box_clear, layers_clear, Claims, Class};
use crate::grid::{in_box, offers, Grid, GridError, GridInput, Pixel, Stamp};
use crate::regions::{clip_fits, clipped, Box4, GroupInput, Regions};
use crate::sort::{sorted_in, Order};
use crate::text::{append_decimal, comes_before, contains, decimal, has_part, lemma_text_less_antisym, lemma_text_less_total, lemma_text_less_trans, same_text, text_less, texts};

verus! {

/// One cell that failed a check, and which one.
#[derive(Debug, PartialEq, Eq)]
pub struct Failure {
    pub family: String,
    pub cell: String,
    /// For `overlap`, the cell it overlaps.
    pub with: Option<String>,
}

/// A failure's contents.
pub struct Fault {
    pub family: Seq<char>,
    pub cell: Seq<char>,
    pub with: Option<Seq<char>>,
}

impl Failure {
    pub open spec fn fault(&self) -> Fault {
        Fault {
            family: self.family@,
            cell: self.cell@,
            with: match self.with { Some(w) => Some(w@), None => None },
        }
    }
}

/// The contents of a list of failures.
pub open spec fn faults(v: Seq<Failure>) -> Seq<Fault> {
    Seq::new(v.len(), |k: int| v[k].fault())
}

/// The verdict of a legality check.
#[derive(Debug)]
pub struct Report {
    pub failures: Vec<Failure>,
    pub cells_checked: usize,
    /// Families this run did not evaluate.
    pub not_checked: Vec<String>,
    /// Families that were evaluated under a stated restriction.
    pub limitations: Vec<String>,
}

impl Report {
    /// Did no check fail?
    pub fn is_clean(&self) -> (r: bool)
        ensures
            r == (self.failures@.len() == 0),
    {
        self.failures.len() == 0
    }
}

/// Whether two boxes, corner and size, overlap. Boxes that merely abut do not.
pub open spec fn boxes_overlap(a: (int, int, int, int), b: (int, int, int, int)) -> bool {
    a.0 < b.0 + b.2 && a.0 + a.2 > b.0 && a.1 < b.1 + b.3 && a.1 + a.3 > b.1
}

/// A box in mathematical integers.
pub open spec fn wide(b: (i64, i64, i64, i64)) -> (int, int, int, int) {
    (b.0 as int, b.1 as int, b.2 as int, b.3 as int)
}

/// Sums of a box's parts stay in range.
pub open spec fn box_fits(b: (i64, i64, i64, i64)) -> bool {
    i64::MIN <= b.0 + b.2 <= i64::MAX && i64::MIN <= b.1 + b.3 <= i64::MAX
}

/// Do two boxes overlap?
pub fn rects_overlap(a: (i64, i64, i64, i64), b: (i64, i64, i64, i64)) -> (r: bool)
    requires
        box_fits(a),
        box_fits(b),
    ensures
        r == boxes_overlap(wide(a), wide(b)),
{
    a.0 < b.0 + b.2 && a.0 + a.2 > b.0 && a.1 < b.1 + b.3 && a.1 + a.3 > b.1
}

/// Overlap does not depend on which box is asked first.
pub proof fn law_overlap_symmetric(a: (int, int, int, int), b: (int, int, int, int))
    ensures
        boxes_overlap(a, b) == boxes_overlap(b, a),
{
}

/// Boxes side by side or stacked do not overlap.
pub proof fn law_abutting_is_no_overlap(a: (int, int, int, int), b: (int, int, int, int))
    requires
        b.0 == a.0 + a.2 || b.1 == a.1 + a.3,
    ensures
        !boxes_overlap(a, b),
{
}

// ── single checks ────────────────────────────────────────────────────────────────────────────

/// Whether every square under a cell is a valid square of the grid, and those of its first row offer
/// its site.
pub open spec fn squares_in_rows(g: Grid, x: int, y: int, w: int, h: int, site: Seq<char>) -> bool {
    let c = g.cover(x, y, w, h);
    &&& g.row_count > 0
    &&& forall|gx: int, gy: int| #![trigger g.px(gx, gy)] in_box(c, gx, gy) ==> {
        &&& g.inside(gx, gy)
        &&& g.px(gx, gy).is_valid
        &&& gy == c.1 ==> offers(g.row_sites@[gy]@, gx, site)
    }
}

/// Whether a test of rows agrees with a mathematical one.
pub open spec fn agrees_rows<F: Fn(i64, i64) -> bool>(f: F, g: spec_fn(int, int) -> bool) -> bool {
    forall|a: i64, b: i64, r: bool| #[trigger] f.ensures((a, b), r) ==> r == g(a as int, b as int)
}

/// Does a cell sit in rows? Every square it covers must be valid, its first row must offer its site,
/// and where `power_ok` is given it must accept the first row and the number of rows.
pub fn check_in_rows<F: Fn(i64, i64) -> bool>(g: &Grid, x: i32, y: i32, w: i32, h: i32, site: &str, power_ok: Option<&F>) -> (r: bool)
    requires
        g.wf(),
        power_ok matches Some(f) ==> forall|a: i64, b: i64| #[trigger] f.requires((a, b)),
    ensures
        power_ok is None ==> r == squares_in_rows(*g, x as int, y as int, w as int, h as int, site@),
        power_ok matches Some(f) ==> forall|p: spec_fn(int, int) -> bool| #[trigger] agrees_rows(*f, p) ==> r == ({
            let c = g.cover(x as int, y as int, w as int, h as int);
            squares_in_rows(*g, x as int, y as int, w as int, h as int, site@) && p(c.1, c.3 - c.1)
        }),
{
    let (xlo, ylo, xhi, yhi) = g.covering(x, y, w, h);
    if ylo < 0 {
        return false;
    }
    let ghost c = g.cover(x as int, y as int, w as int, h as int);
    let mut gy: i64 = ylo;
    while gy < yhi
        invariant
            g.wf(),
            g.row_count > 0,
            c == g.cover(x as int, y as int, w as int, h as int),
            c == (xlo as int, ylo as int, xhi as int, yhi as int),
            0 <= ylo <= gy <= yhi <= g.row_count,
            forall|a: int, b: int| #![trigger g.px(a, b)] xlo <= a < xhi && ylo <= b < gy ==> g.inside(a, b) && g.px(a, b).is_valid && (b == ylo ==> offers(g.row_sites@[b]@, a, site@)),
        decreases yhi - gy,
    {
        let mut gx: i64 = xlo;
        while gx < xhi
            invariant
                g.wf(),
                g.row_count > 0,
                c == g.cover(x as int, y as int, w as int, h as int),
                c == (xlo as int, ylo as int, xhi as int, yhi as int),
                0 <= ylo <= gy < yhi <= g.row_count,
                xlo <= gx,
                gx <= xhi || gx == xlo,
                forall|a: int| #![trigger g.px(a, gy as int)] xlo <= a < gx ==> g.inside(a, gy as int) && g.px(a, gy as int).is_valid && (gy == ylo ==> offers(g.row_sites@[gy as int]@, a, site@)),
            decreases xhi - gx,
        {
            let ok: bool = match g.pixel(gx, gy) {
                None => false,
                Some(p) => p.is_valid,
            };
            if !ok || (gy == ylo && !g.site_valid_at(gx, gy, site)) {
                assert(in_box(c, gx as int, gy as int));
                assert(!squares_in_rows(*g, x as int, y as int, w as int, h as int, site@)) by {
                    let p = g.px(gx as int, gy as int);
                }
                return false;
            }
            gx = gx + 1;
        }
        gy = gy + 1;
    }
    assert(squares_in_rows(*g, x as int, y as int, w as int, h as int, site@));
    match power_ok {
        None => true,
        Some(f) => f(ylo, yhi - ylo),
    }
}

/// What one edge of a cell makes of a gap found so far. Where the square just outside is a valid one
/// without a cell, the square beyond it decides.
pub open spec fn edge_gap(g: spec_fn(int, int) -> Option<(bool, bool)>, x: int, step: int, y: int, gap: bool) -> bool {
    if g(x, y) is None {
        gap
    } else if g(x + step, y) == Some((true, false)) {
        match g(x + 2 * step, y) {
            Some((_, cell)) => cell,
            None => gap,
        }
    } else {
        gap
    }
}

/// Whether a gap stands after the rows below `y`, each asked west and then east.
pub open spec fn gap_upto(g: spec_fn(int, int) -> Option<(bool, bool)>, gx0: int, gy0: int, gx1: int, y: int) -> bool
    decreases y - gy0,
{
    if y <= gy0 {
        false
    } else {
        edge_gap(g, gx1 - 1, 1, y - 1, edge_gap(g, gx0, -1, y - 1, gap_upto(g, gx0, gy0, gx1, y - 1)))
    }
}

/// Whether a reading of squares agrees with a mathematical one.
pub open spec fn agrees_squares<F: Fn(i64, i64) -> Option<(bool, bool)>>(f: F, g: spec_fn(int, int) -> Option<(bool, bool)>) -> bool {
    forall|a: i64, b: i64, r: Option<(bool, bool)>| #[trigger] f.ensures((a, b), r) ==> r == g(a as int, b as int)
}

fn ask_edge<F: Fn(i64, i64) -> Option<(bool, bool)>>(x: i64, step: i64, y: i64, gap: bool, at: &F) -> (r: bool)
    requires
        step == 1 || step == -1,
        -0x4000_0000_0000_0000 <= x <= 0x4000_0000_0000_0000,
        forall|a: i64, b: i64| #[trigger] at.requires((a, b)),
    ensures
        forall|g: spec_fn(int, int) -> Option<(bool, bool)>| #[trigger] agrees_squares(*at, g) ==> r == edge_gap(g, x as int, step as int, y as int, gap),
{
    let here = at(x, y);
    if here.is_none() {
        return gap;
    }
    let near = at(x + step, y);
    let open: bool = match near {
        Some((valid, occupied)) => valid && !occupied,
        None => false,
    };
    if !open {
        assert forall|g: spec_fn(int, int) -> Option<(bool, bool)>| #[trigger] agrees_squares(*at, g) implies gap == edge_gap(g, x as int, step as int, y as int, gap) by {
            assert(near == g(x + step, y as int));
        }
        return gap;
    }
    let far = at(x + 2 * step, y);
    assert forall|g: spec_fn(int, int) -> Option<(bool, bool)>| #[trigger] agrees_squares(*at, g) implies (match far { Some((_, cell)) => cell, None => gap }) == edge_gap(g, x as int, step as int, y as int, gap) by {
        assert(here == g(x as int, y as int));
        assert(near == g(x + step, y as int));
        assert(far == g(x + 2 * step, y as int));
    }
    match far {
        Some((_, cell)) => cell,
        None => gap,
    }
}

/// Does a cell leave a gap of one site? Its left and right edges are asked row by row, west and then
/// east; a later edge that finds no cell beyond an open square clears a gap found before.
pub fn check_one_site_gaps<F: Fn(i64, i64) -> Option<(bool, bool)>>(gx0: i64, gy0: i64, gx1: i64, gy1: i64, at: &F) -> (r: bool)
    requires
        -0x4000_0000_0000_0000 <= gx0 <= 0x4000_0000_0000_0000,
        -0x4000_0000_0000_0000 < gx1 <= 0x4000_0000_0000_0000,
        forall|a: i64, b: i64| #[trigger] at.requires((a, b)),
    ensures
        forall|g: spec_fn(int, int) -> Option<(bool, bool)>| #[trigger] agrees_squares(*at, g) ==> r == gap_upto(g, gx0 as int, gy0 as int, gx1 as int, gy1 as int),
{
    let mut gap: bool = false;
    let mut y: i64 = gy0;
    while y < gy1
        invariant
            -0x4000_0000_0000_0000 <= gx0 <= 0x4000_0000_0000_0000,
            -0x4000_0000_0000_0000 < gx1 <= 0x4000_0000_0000_0000,
            gy0 <= y,
            y <= gy1 || y == gy0,
            forall|a: i64, b: i64| #[trigger] at.requires((a, b)),
            forall|g: spec_fn(int, int) -> Option<(bool, bool)>| #[trigger] agrees_squares(*at, g) ==> gap == gap_upto(g, gx0 as int, gy0 as int, gx1 as int, y as int),
        decreases gy1 - y,
    {
        let ghost gap0 = gap;
        let west: bool = ask_edge(gx0, -1, y, gap, at);
        gap = ask_edge(gx1 - 1, 1, y, west, at);
        assert forall|g: spec_fn(int, int) -> Option<(bool, bool)>| #[trigger] agrees_squares(*at, g) implies gap == gap_upto(g, gx0 as int, gy0 as int, gx1 as int, y + 1) by {
            assert(gap0 == gap_upto(g, gx0 as int, gy0 as int, gx1 as int, y as int));
            assert(west == edge_gap(g, gx0 as int, -1, y as int, gap0));
        }
        y = y + 1;
    }
    assert forall|g: spec_fn(int, int) -> Option<(bool, bool)>| #[trigger] agrees_squares(*at, g) implies gap == gap_upto(g, gx0 as int, gy0 as int, gx1 as int, gy1 as int) by {
        assert(gap == gap_upto(g, gx0 as int, gy0 as int, gx1 as int, y as int));
    }
    gap
}

// ── the design ───────────────────────────────────────────────────────────────────────────────

/// A cell of the network. Coordinates are absolute.
#[derive(Debug)]
pub struct CheckCell {
    pub name: String,
    pub x: i32,
    pub y: i32,
    /// The master's size.
    pub w: i32,
    pub h: i32,
    pub master_type: String,
    /// The master's site.
    pub site: String,
    /// Whether the master spans several rows.
    pub multi_row: bool,
    /// Whether the instance is placed at all.
    pub placed: bool,
    /// The routing levels its pins use, `1 << level`.
    pub used_layers: u32,
    /// Per grid row, whether the master's power rails let it start there.
    pub rails: Vec<bool>,
    /// Whether its edges keep their distance from the cells visited before it.
    pub edges_ok: bool,
}

/// What of a design the checker reads.
#[derive(Debug)]
pub struct CheckInput {
    pub grid: GridInput,
    /// The network's cells, in its order.
    pub cells: Vec<CheckCell>,
    pub groups: Vec<GroupInput>,
    /// Whether some master is one site wide, so that a gap of one site can be filled.
    pub has_one_site_master: bool,
    /// Whether `rails` of the cells tell what their power rails allow.
    pub rails_known: bool,
    /// Whether `edges_ok` of the cells tells how their edges stand.
    pub edges_known: bool,
}

/// The least X of the first `n` rows.
pub open spec fn least_x(rows: Seq<crate::grid::RowInfo>, n: int) -> int
    decreases n,
{
    if n <= 1 { rows[0].x as int } else { imin(least_x(rows, n - 1), rows[n - 1].x as int) }
}

/// The least positive site width of the first `n` rows, 0 where none is positive.
pub open spec fn least_site(rows: Seq<crate::grid::RowInfo>, n: int) -> int
    decreases n,
{
    if n <= 0 {
        0
    } else {
        let w = least_site(rows, n - 1);
        let v = rows[n - 1].site_width as int;
        if v > 0 && (w == 0 || v < w) { v } else { w }
    }
}

/// Whether a cell is a block.
pub open spec fn is_block(c: CheckCell) -> bool {
    has_part(c.master_type@, "BLOCK"@)
}

/// A cell's box.
pub open spec fn cell_box(c: CheckCell) -> (int, int, int, int) {
    (c.x as int, c.y as int, c.w as int, c.h as int)
}

/// Whether `a` comes before `b`: by family, then by cell, then without a partner before with one,
/// then by the partner.
pub open spec fn fault_less(a: Fault, b: Fault) -> bool {
    if a.family != b.family {
        text_less(a.family, b.family)
    } else if a.cell != b.cell {
        text_less(a.cell, b.cell)
    } else {
        match (a.with, b.with) {
            (None, Some(_)) => true,
            (Some(x), Some(y)) => text_less(x, y),
            _ => false,
        }
    }
}

proof fn lemma_fault_order(a: Fault, b: Fault, c: Fault)
    ensures
        !(fault_less(a, b) && fault_less(b, a)),
        fault_less(a, b) && fault_less(b, c) ==> fault_less(a, c),
        fault_less(a, b) || fault_less(b, a) || a == b,
{
    lemma_text_less_antisym(a.family, b.family);
    lemma_text_less_antisym(a.cell, b.cell);
    lemma_text_less_total(a.family, b.family);
    lemma_text_less_total(a.cell, b.cell);
    if text_less(a.family, b.family) && text_less(b.family, c.family) {
        lemma_text_less_trans(a.family, b.family, c.family);
        lemma_text_less_antisym(a.family, c.family);
    }
    if text_less(a.cell, b.cell) && text_less(b.cell, c.cell) {
        lemma_text_less_trans(a.cell, b.cell, c.cell);
        lemma_text_less_antisym(a.cell, c.cell);
    }
    match (a.with, b.with) {
        (Some(x), Some(y)) => {
            lemma_text_less_antisym(x, y);
            lemma_text_less_total(x, y);
            if let Some(z) = c.with {
                if text_less(x, y) && text_less(y, z) {
                    lemma_text_less_trans(x, y, z);
                }
            }
        },
        _ => {},
    }
}

/// Failures in their order; equal ones by their position.
struct ByFault<'a> {
    failures: &'a Vec<Failure>,
}

spec fn fault_at(v: Seq<Failure>, i: int) -> Fault {
    if i < v.len() { v[i].fault() } else { Fault { family: Seq::empty(), cell: Seq::empty(), with: None } }
}

impl<'a> Order<usize> for ByFault<'a> {
    closed spec fn leq(&self, a: usize, b: usize) -> bool {
        let (x, y) = (fault_at(self.failures@, a as int), fault_at(self.failures@, b as int));
        fault_less(x, y) || x == y && a <= b
    }

    closed spec fn knows(&self, k: usize) -> bool {
        k < self.failures@.len()
    }

    proof fn order_laws(&self) {
        let leq = |a: usize, b: usize| self.leq(a, b);
        assert forall|a: usize, b: usize| #[trigger] leq(a, b) && #[trigger] leq(b, a) implies a == b by {
            lemma_fault_order(fault_at(self.failures@, a as int), fault_at(self.failures@, b as int), fault_at(self.failures@, b as int));
        }
        assert forall|a: usize, b: usize, c: usize| #[trigger] leq(a, b) && #[trigger] leq(b, c) implies leq(a, c) by {
            lemma_fault_order(fault_at(self.failures@, a as int), fault_at(self.failures@, b as int), fault_at(self.failures@, c as int));
        }
        assert forall|a: usize, b: usize| #[trigger] leq(a, b) || #[trigger] leq(b, a) by {
            lemma_fault_order(fault_at(self.failures@, a as int), fault_at(self.failures@, b as int), fault_at(self.failures@, b as int));
        }
    }

    fn at_most(&self, a: usize, b: usize) -> (r: bool) {
        let x = &self.failures[a];
        let y = &self.failures[b];
        if !same_text(x.family.as_str(), y.family.as_str()) {
            return comes_before(x.family.as_str(), y.family.as_str());
        }
        if !same_text(x.cell.as_str(), y.cell.as_str()) {
            return comes_before(x.cell.as_str(), y.cell.as_str());
        }
        match (&x.with, &y.with) {
            (None, Some(_)) => true,
            (Some(_), None) => false,
            (None, None) => a <= b,
            (Some(p), Some(q)) => comes_before(p.as_str(), q.as_str()) || (same_text(p.as_str(), q.as_str()) && a <= b),
        }
    }
}

/// No failure comes before one that stands ahead of it.
pub open spec fn failures_sorted(s: Seq<Failure>) -> bool {
    forall|i: int, j: int| 0 <= i < j < s.len() ==> !fault_less((#[trigger] s[j]).fault(), (#[trigger] s[i]).fault())
}

fn copy_failure(f: &Failure) -> (r: Failure)
    ensures
        r == *f,
{
    let with = match &f.with {
        Some(w) => Some(w.clone()),
        None => None,
    };
    Failure { family: f.family.clone(), cell: f.cell.clone(), with }
}

/// Sort failures by family, cell and partner.
fn sort_failures(v: &Vec<Failure>) -> (r: Vec<Failure>)
    ensures
        failures_sorted(r@),
        r@.to_multiset() == v@.to_multiset(),
{
    let n: usize = v.len();
    let mut all: Vec<usize> = Vec::new();
    while all.len() < n
        invariant
            all@.len() <= n,
            all@ == crate::network::numbers(n as nat).subrange(0, all@.len() as int),
        decreases n - all@.len(),
    {
        let ghost k = all@.len() as int;
        all.push(all.len());
        assert(all@ =~= crate::network::numbers(n as nat).subrange(0, k + 1));
    }
    assert(all@ =~= crate::network::numbers(n as nat));
    let o = ByFault { failures: v };
    let ix = sorted_in(&o, &all);
    proof {
        let below = |i: usize| i < n;
        crate::sort::lemma_rearranged(all@, ix@, below);
    }
    let mut out: Vec<Failure> = Vec::new();
    let mut k: usize = 0;
    while k < n
        invariant
            k <= n,
            n == ix@.len(),
            n == v@.len(),
            forall|j: int| 0 <= j < n ==> #[trigger] ix@[j] < n,
            out@.len() == k,
            forall|j: int| 0 <= j < k ==> #[trigger] out@[j] == v@[ix@[j] as int],
        decreases n - k,
    {
        out.push(copy_failure(&v[ix[k]]));
        k = k + 1;
    }
    proof {
        assert forall|i: int, j: int| 0 <= i < j < out@.len() implies !fault_less((#[trigger] out@[j]).fault(), (#[trigger] out@[i]).fault()) by {
            assert(o.leq(ix@[i], ix@[j]));
            lemma_fault_order(out@[i].fault(), out@[j].fault(), out@[j].fault());
        }
        crate::place::lemma_permuted(v@, ix@, out@);
    }
    out
}

/// The largest coordinates of cells.
pub const CHECK_LIMIT: i32 = 0x1000_0000;

/// A cell whose numbers are in range.
pub open spec fn check_cell_ok(core: (i32, i32, i32, i32), c: CheckCell) -> bool {
    &&& -CHECK_LIMIT <= c.x - core.0 <= CHECK_LIMIT
    &&& -CHECK_LIMIT <= c.y - core.1 <= CHECK_LIMIT
    &&& 0 <= c.w <= CHECK_LIMIT
    &&& 0 <= c.h <= CHECK_LIMIT
}

/// A failure without a partner.
pub open spec fn fault(family: Seq<char>, cell: Seq<char>) -> Fault {
    Fault { family, cell, with: None }
}

/// One fault if `bad`, else none.
pub open spec fn fault_if(bad: bool, family: Seq<char>, cell: Seq<char>) -> Seq<Fault> {
    if bad { seq![fault(family, cell)] } else { Seq::empty() }
}

/// One overlap fault if there is a partner.
pub open spec fn overlap_faults(cell: Seq<char>, with: Option<Seq<char>>) -> Seq<Fault> {
    match with {
        Some(w) => seq![Fault { family: "overlap"@, cell, with: Some(w) }],
        None => Seq::empty(),
    }
}

/// The padding of each cell, left and right, in sites.
pub open spec fn pads_of(padding: Option<Seq<(i32, i32)>>, i: int) -> (int, int) {
    match padding {
        Some(v) => (v[i].0 as int, v[i].1 as int),
        None => (0, 0),
    }
}

impl CheckInput {
    /// Where the site grid starts: the rows' least X.
    pub open spec fn left(&self) -> int {
        if self.grid.rows@.len() == 0 { 0 } else { least_x(self.grid.rows@, self.grid.rows@.len() as int) }
    }

    /// The narrowest site width.
    pub open spec fn site(&self) -> int {
        least_site(self.grid.rows@, self.grid.rows@.len() as int)
    }

    /// Whether a row starts at a Y.
    pub open spec fn has_row_at(&self, y: int) -> bool {
        exists|k: int| 0 <= k < self.grid.rows@.len() && (#[trigger] self.grid.rows@[k]).y == y
    }

    /// Whether a standard cell is off the sites or off the rows.
    pub open spec fn misaligned(&self, i: int) -> bool {
        let c = self.cells@[i];
        !is_block(c) && self.site() > 0 && ((c.x - self.left()) % self.site() != 0 || !self.has_row_at(c.y as int))
    }

    /// The squares cell `i` covers.
    pub open spec fn covered(&self, g: Grid, i: int) -> (int, int, int, int) {
        let c = self.cells@[i];
        g.cover(c.x - g.core.0, c.y - g.core.1, c.w as int, c.h as int)
    }

    /// Whether cell `i` sits in rows; one of several rows must match the rails of its first row.
    pub open spec fn in_rows(&self, g: Grid, i: int) -> bool {
        let c = self.cells@[i];
        let y0 = self.covered(g, i).1;
        &&& squares_in_rows(g, c.x - g.core.0, c.y - g.core.1, c.w as int, c.h as int, c.site@)
        &&& c.multi_row && 0 <= y0 < c.rails@.len() ==> c.rails@[y0]
    }

    /// The cell in a square that cell `i` genuinely overlaps. Two blocks may overlap.
    pub open spec fn partner(&self, h: Grid, i: int, gx: int, gy: int) -> Option<int> {
        if !h.inside(gx, gy) {
            None
        } else {
            match h.px(gx, gy).cell {
                None => None,
                Some(o) => if o != i && !(is_block(self.cells@[i]) && is_block(self.cells@[o as int]))
                    && boxes_overlap(cell_box(self.cells@[i]), cell_box(self.cells@[o as int])) {
                    Some(o as int)
                } else {
                    None
                },
            }
        }
    }

    /// The last partner in column `gx` among the rows below `y`, else `prev`.
    pub open spec fn partner_in_column(&self, h: Grid, i: int, gx: int, y0: int, y: int, prev: Option<int>) -> Option<int>
        decreases y - y0,
    {
        if y <= y0 {
            prev
        } else {
            match self.partner(h, i, gx, y - 1) {
                Some(o) => Some(o),
                None => self.partner_in_column(h, i, gx, y0, y - 1, prev),
            }
        }
    }

    /// The last partner in the columns below `x`.
    pub open spec fn partner_in(&self, h: Grid, i: int, x0: int, x: int, y0: int, y1: int) -> Option<int>
        decreases x - x0,
    {
        if x <= x0 {
            None
        } else {
            self.partner_in_column(h, i, x - 1, y0, y1, self.partner_in(h, i, x0, x - 1, y0, y1))
        }
    }

    /// The cell that cell `i` overlaps among those painted.
    pub open spec fn overlapped(&self, h: Grid, i: int) -> Option<int> {
        let c = self.covered(h, i);
        self.partner_in(h, i, c.0, c.2, c.1, c.3)
    }

    /// The claims on a square as cell `i` sees them.
    pub open spec fn claims(&self, h: Grid, i: int) -> spec_fn(i32, i32) -> Option<Claims> {
        |x: i32, y: i32| if h.inside(x as int, y as int) {
            let p = h.px(x as int, y as int);
            Some((
                match p.cell { Some(o) => Some((class_of(self.cells@[o as int].master_type@), o == i)), None => None },
                match p.padding_reserved_by { Some(o) => Some((class_of(self.cells@[o as int].master_type@), o == i)), None => None },
            ))
        } else {
            None
        }
    }

    /// Whether cell `i`'s padding is respected.
    pub open spec fn padding_kept(&self, h: Grid, i: int, pads: (int, int)) -> bool {
        let c = self.covered(h, i);
        box_clear(class_of(self.cells@[i].master_type@), self.claims(h, i), c.0 - pads.0, c.2 + pads.1, c.1, c.3)
    }

    /// Whether cell `i`'s pins are clear of blocked levels.
    pub open spec fn levels_clear(&self, h: Grid, i: int) -> bool {
        let c = self.covered(h, i);
        layers_clear(blocked_in(h), c.0, c.2, c.1, c.3, self.cells@[i].used_layers)
    }

    /// What cell `i` is found guilty of, against the cells painted before it. `g` is the bare grid,
    /// `h` the grid with those cells, `h1` the grid with cell `i`'s body too.
    pub open spec fn faults_of(&self, g: Grid, regions: Regions, h: Grid, h1: Grid, i: int, pads: (int, int)) -> Seq<Fault> {
        let c = self.cells@[i];
        let n = c.name@;
        if self.misaligned(i) {
            seq![fault("site_align"@, n)]
        } else {
            fault_if(!is_block(c) && !self.in_rows(g, i), "in_rows"@, n)
                + fault_if(!is_block(c) && !regions.well_placed(n, c.x - g.core.0, c.y - g.core.1, c.w as int, c.h as int, g.site_width as int, g.row_y@, g.core.3 as int), "region_placement"@, n)
                + fault_if(!c.placed, "placed"@, n)
                + overlap_faults(n, match self.overlapped(h, i) { Some(o) => Some(self.cells@[o].name@), None => None })
                + fault_if(!self.padding_kept(h1, i, pads), "padding"@, n)
                + fault_if(!c.edges_ok, "edge_spacing"@, n)
                + fault_if(!self.levels_clear(h, i), "blocked_layers"@, n)
        }
    }

    /// Cell `i` is painted, body and padding, unless it is misaligned.
    pub open spec fn painted(&self, h: Grid, h1: Grid, h2: Grid, i: int, pads: (int, int)) -> bool {
        let c = self.covered(h, i);
        if self.misaligned(i) {
            h2 == h
        } else {
            &&& h1.is_stamped(h, c, Stamp::Occupy(Some(i as u32)))
            &&& h2.is_padded(h1, c.0, c.1, c.2 - c.0, self.cells@[i].h as int, pads.0, pads.1, i as u32)
        }
    }

    /// A visit of every cell: `hs` are the grids before each cell and after the last, `bodies` the
    /// grids with each cell's body.
    pub open spec fn visited(&self, padding: Option<Seq<(i32, i32)>>, hs: Seq<Grid>, bodies: Seq<Grid>, n: int) -> bool {
        &&& hs.len() == n + 1
        &&& bodies.len() == n
        &&& forall|i: int| 0 <= i < n ==> self.painted(hs[i], #[trigger] bodies[i], hs[i + 1], i, pads_of(padding, i))
    }

    /// What the first `n` cells are found guilty of.
    pub open spec fn faults_upto(&self, g: Grid, regions: Regions, padding: Option<Seq<(i32, i32)>>, hs: Seq<Grid>, bodies: Seq<Grid>, n: int) -> Seq<Fault>
        decreases n,
    {
        if n <= 0 {
            Seq::empty()
        } else {
            self.faults_upto(g, regions, padding, hs, bodies, n - 1) + self.faults_of(g, regions, hs[n - 1], bodies[n - 1], n - 1, pads_of(padding, n - 1))
        }
    }

    /// The gaps of one site that the first `n` cells leave, once all cells are painted.
    pub open spec fn gaps_upto(&self, h: Grid, n: int) -> Seq<Fault>
        decreases n,
    {
        if n <= 0 {
            Seq::empty()
        } else {
            let c = self.covered(h, n - 1);
            self.gaps_upto(h, n - 1) + fault_if(gap_upto(squares_of(h), c.0, c.1, c.2, c.3), "one_site_gap"@, self.cells@[n - 1].name@)
        }
    }

    /// The first cell before `i`, from `j` on, that is aligned and overlaps it.
    pub open spec fn earlier_overlap(&self, i: int, j: int) -> Option<int>
        decreases i - j,
    {
        if j >= i {
            None
        } else if !self.misaligned(j) && !(is_block(self.cells@[i]) && is_block(self.cells@[j]))
            && boxes_overlap(cell_box(self.cells@[i]), cell_box(self.cells@[j])) {
            Some(j)
        } else {
            self.earlier_overlap(i, j + 1)
        }
    }

    /// What the first `n` cells are found guilty of where no grid can be made.
    pub open spec fn bare_faults(&self, n: int) -> Seq<Fault>
        decreases n,
    {
        if n <= 0 {
            Seq::empty()
        } else {
            let c = self.cells@[n - 1];
            self.bare_faults(n - 1) + if self.misaligned(n - 1) {
                seq![fault("site_align"@, c.name@)]
            } else {
                fault_if(!c.placed, "placed"@, c.name@)
                    + overlap_faults(c.name@, match self.earlier_overlap(n - 1, 0) { Some(o) => Some(self.cells@[o].name@), None => None })
            }
        }
    }

    /// The first cell from `k` on with a name: where it sits.
    pub open spec fn location(&self, name: Seq<char>, k: int) -> Option<Box4>
        decreases self.cells@.len() - k,
    {
        if k >= self.cells@.len() {
            None
        } else if self.cells@[k].name@ == name {
            let c = self.cells@[k];
            Some(((c.x - self.grid.core.0) as i32, (c.y - self.grid.core.1) as i32, c.w, c.h))
        } else {
            self.location(name, k + 1)
        }
    }

    /// The names of the cells.
    pub open spec fn names(&self) -> Seq<String> {
        Seq::new(self.cells@.len(), |i: int| self.cells@[i].name)
    }

    /// The numbers are in range.
    pub open spec fn in_range(&self) -> bool {
        &&& self.grid.in_range()
        &&& self.cells@.len() <= 0x7fff_ffff
        &&& forall|i: int| 0 <= i < self.cells@.len() ==> check_cell_ok(self.grid.core, #[trigger] self.cells@[i])
        &&& forall|i: int, k: int| 0 <= i < self.groups@.len() && 0 <= k < self.groups@[i].boundaries@.len() ==> ({
            let b = #[trigger] self.groups@[i].boundaries@[k];
            clip_fits(self.grid.core, b) && clipped(self.grid.core, b).2 > i32::MIN && clipped(self.grid.core, b).3 > i32::MIN
        })
    }
}

/// The routing levels blocked in a square.
pub open spec fn blocked_in(h: Grid) -> spec_fn(i32, i32) -> Option<u32> {
    |x: i32, y: i32| if h.inside(x as int, y as int) { Some(h.px(x as int, y as int).blocked_layers) } else { None }
}

/// Whether a square is valid, and whether it holds a cell.
pub open spec fn squares_of(h: Grid) -> spec_fn(int, int) -> Option<(bool, bool)> {
    |x: int, y: int| if h.inside(x, y) { Some((h.px(x, y).is_valid, h.px(x, y).cell is Some)) } else { None }
}

/// Note a failure.
fn note(out: &mut Vec<Failure>, family: &str, cell: &String)
    ensures
        faults(final(out)@) == faults(old(out)@).push(fault(family@, cell@)),
{
    let ghost o = out@;
    out.push(Failure { family: family.to_owned(), cell: cell.clone(), with: None });
    assert(faults(out@) =~= faults(o).push(fault(family@, cell@)));
}

/// Note a failure if there is one.
fn note_if(bad: bool, out: &mut Vec<Failure>, family: &str, cell: &String)
    ensures
        faults(final(out)@) == faults(old(out)@) + fault_if(bad, family@, cell@),
{
    let ghost o = out@;
    if bad {
        note(out, family, cell);
        assert(faults(out@) =~= faults(o) + fault_if(bad, family@, cell@));
    } else {
        assert(faults(o) =~= faults(o) + fault_if(bad, family@, cell@));
    }
}

/// Note an overlap if there is a partner.
fn note_overlap(out: &mut Vec<Failure>, cell: &String, with: Option<&String>)
    ensures
        faults(final(out)@) == faults(old(out)@) + overlap_faults(cell@, match with { Some(w) => Some(w@), None => None }),
{
    let ghost o = out@;
    match with {
        Some(w) => {
            out.push(Failure { family: "overlap".to_owned(), cell: cell.clone(), with: Some(w.clone()) });
            assert(faults(out@) =~= faults(o) + overlap_faults(cell@, Some(w@)));
        },
        None => {
            assert(faults(o) =~= faults(o) + overlap_faults(cell@, None));
        },
    }
}

/// The aligned cells' yardstick: the rows' least X and the narrowest site.
fn row_origin(d: &CheckInput) -> (r: (i64, i64))
    ensures
        r.0 == d.left(),
        r.1 == d.site(),
        -0x8000_0000 <= r.0 <= 0x7fff_ffff,
        0 <= r.1 <= 0x7fff_ffff,
{
    let rows = &d.grid.rows;
    let mut x: i64 = if rows.len() > 0 { rows[0].x as i64 } else { 0 };
    let mut w: i64 = 0;
    let mut k: usize = 0;
    while k < rows.len()
        invariant
            rows == &d.grid.rows,
            k <= rows@.len(),
            k == 0 && rows@.len() > 0 ==> x == rows@[0].x,
            k > 0 ==> x == least_x(rows@, k as int),
            w == least_site(rows@, k as int),
            -0x8000_0000 <= x <= 0x7fff_ffff,
            0 <= w <= 0x7fff_ffff,
            rows@.len() == 0 ==> x == 0,
        decreases rows@.len() - k,
    {
        if (rows[k].x as i64) < x {
            x = rows[k].x as i64;
        }
        let v: i64 = rows[k].site_width as i64;
        if v > 0 && (w == 0 || v < w) {
            w = v;
        }
        k = k + 1;
    }
    (x, w)
}

/// Does a row start at a Y?
fn row_at(d: &CheckInput, y: i32) -> (r: bool)
    ensures
        r == d.has_row_at(y as int),
{
    let rows = &d.grid.rows;
    let mut k: usize = 0;
    while k < rows.len()
        invariant
            rows == &d.grid.rows,
            k <= rows@.len(),
            forall|j: int| 0 <= j < k ==> (#[trigger] rows@[j]).y != y,
        decreases rows@.len() - k,
    {
        if rows[k].y == y {
            assert(d.grid.rows@[k as int].y == y);
            return true;
        }
        k = k + 1;
    }
    false
}

/// Is a standard cell off the sites or off the rows?
fn is_misaligned(d: &CheckInput, i: usize, origin: (i64, i64)) -> (r: bool)
    requires
        i < d.cells@.len(),
        origin.0 == d.left(),
        origin.1 == d.site(),
        -0x8000_0000 <= origin.0 <= 0x7fff_ffff,
        0 <= origin.1 <= 0x7fff_ffff,
    ensures
        r == d.misaligned(i as int),
{
    let c = &d.cells[i];
    if origin.1 <= 0 || contains(c.master_type.as_str(), "BLOCK") {
        return false;
    }
    crate::arith::rem_floor(c.x as i64 - origin.0, origin.1) != 0 || !row_at(d, c.y)
}

/// Every cell and padding mark in a grid names one of `n` cells.
pub open spec fn ids_below(h: Grid, n: int) -> bool {
    forall|gx: int, gy: int| #![trigger h.px(gx, gy)] h.inside(gx, gy) ==> {
        &&& h.px(gx, gy).cell matches Some(o) ==> o < n
        &&& h.px(gx, gy).padding_reserved_by matches Some(o) ==> o < n
    }
}

spec fn ids_below_in(h: &Grid, n: int) -> bool {
    ids_below(*h, n)
}

spec fn blocked_in_ref(h: &Grid) -> spec_fn(i32, i32) -> Option<u32> {
    blocked_in(*h)
}

impl CheckInput {
    spec fn claims_in(&self, h: &Grid, i: int) -> spec_fn(i32, i32) -> Option<Claims> {
        self.claims(*h, i)
    }
}

/// Which painted cell does cell `i` overlap?
fn find_overlap(d: &CheckInput, h: &Grid, i: usize, cov: (i64, i64, i64, i64)) -> (r: Option<usize>)
    requires
        d.in_range(),
        h.wf(),
        h.core == d.grid.core,
        i < d.cells@.len(),
        ids_below(*h, d.cells@.len() as int),
        (cov.0 as int, cov.1 as int, cov.2 as int, cov.3 as int) == d.covered(*h, i as int),
    ensures
        d.overlapped(*h, i as int) == match r { Some(o) => Some(o as int), None => None },
        r matches Some(o) ==> o < d.cells@.len(),
{
    let c = &d.cells[i];
    assert(check_cell_ok(d.grid.core, d.cells@[i as int]));
    let blk: bool = contains(c.master_type.as_str(), "BLOCK");
    let mine: (i64, i64, i64, i64) = (c.x as i64, c.y as i64, c.w as i64, c.h as i64);
    let mut found: Option<usize> = None;
    let mut gx: i64 = cov.0;
    while gx < cov.2
        invariant
            d.in_range(),
            h.wf(),
            i < d.cells@.len(),
            ids_below(*h, d.cells@.len() as int),
            c == &d.cells@[i as int],
            blk == is_block(*c),
            wide(mine) == cell_box(*c),
            cov.0 <= gx,
            gx <= cov.2 || gx == cov.0,
            d.partner_in(*h, i as int, cov.0 as int, gx as int, cov.1 as int, cov.3 as int) == (match found { Some(o) => Some(o as int), None => None }),
            found matches Some(o) ==> o < d.cells@.len(),
        decreases cov.2 - gx,
    {
        let ghost prev = d.partner_in(*h, i as int, cov.0 as int, gx as int, cov.1 as int, cov.3 as int);
        let mut gy: i64 = cov.1;
        while gy < cov.3
            invariant
                d.in_range(),
                h.wf(),
                i < d.cells@.len(),
                ids_below(*h, d.cells@.len() as int),
                c == &d.cells@[i as int],
                blk == is_block(*c),
                wide(mine) == cell_box(*c),
                cov.0 <= gx < cov.2,
                cov.1 <= gy,
                gy <= cov.3 || gy == cov.1,
                prev == d.partner_in(*h, i as int, cov.0 as int, gx as int, cov.1 as int, cov.3 as int),
                d.partner_in_column(*h, i as int, gx as int, cov.1 as int, gy as int, prev) == (match found { Some(o) => Some(o as int), None => None }),
                found matches Some(o) ==> o < d.cells@.len(),
            decreases cov.3 - gy,
        {
            let here: Option<u32> = match h.pixel(gx, gy) {
                Some(p) => p.cell,
                None => None,
            };
            if let Some(q) = here {
                let o: usize = q as usize;
                assert(h.px(gx as int, gy as int).cell == Some(q));
                assert(o < d.cells@.len());
                assert(check_cell_ok(d.grid.core, d.cells@[o as int]));
                assert(check_cell_ok(d.grid.core, d.cells@[i as int]));
                let oc = &d.cells[o];
                let theirs: (i64, i64, i64, i64) = (oc.x as i64, oc.y as i64, oc.w as i64, oc.h as i64);
                if o != i && !(blk && contains(oc.master_type.as_str(), "BLOCK")) && rects_overlap(mine, theirs) {
                    found = Some(o);
                }
            }
            gy = gy + 1;
        }
        gx = gx + 1;
    }
    found
}

/// What a cell in range covers is in range.
proof fn lemma_cover_range(g: Grid, x: int, y: int, w: int, h: int)
    requires
        g.wf(),
        -CHECK_LIMIT <= x <= CHECK_LIMIT,
        0 <= w <= CHECK_LIMIT,
    ensures
        ({
            let c = g.cover(x, y, w, h);
            -0x1000_0000 <= c.0 <= c.2 <= 0x2000_0001
        }),
{
    let sw = g.site_width as int;
    crate::arith::lemma_quot_bound(if x >= 0 { x } else { -x }, sw);
    assert(crate::arith::ceil_quot(w, sw) <= w + 1) by (nonlinear_arith)
        requires sw > 0, w >= 0, crate::arith::ceil_quot(w, sw) == -((-w) / sw);
}

/// Every cell and padding mark still names a cell after one more is painted.
proof fn lemma_ids_kept(h: Grid, h1: Grid, c: (int, int, int, int), i: u32, n: int)
    requires
        ids_below(h, n),
        h1.is_stamped(h, c, Stamp::Occupy(Some(i))),
        i < n,
    ensures
        ids_below(h1, n),
{
    assert forall|gx: int, gy: int| #![trigger h1.px(gx, gy)] h1.inside(gx, gy) implies {
        &&& h1.px(gx, gy).cell matches Some(o) ==> o < n
        &&& h1.px(gx, gy).padding_reserved_by matches Some(o) ==> o < n
    } by {
        assert(h.inside(gx, gy));
        let p = h.px(gx, gy);
    }
}

/// Does cell `i` sit in rows?
fn sits_in_rows(d: &CheckInput, g: &Grid, i: usize) -> (r: bool)
    requires
        d.in_range(),
        g.wf(),
        g.core == d.grid.core,
        i < d.cells@.len(),
    ensures
        r == d.in_rows(*g, i as int),
{
    let c = &d.cells[i];
    assert(check_cell_ok(d.grid.core, d.cells@[i as int]));
    let rails = &c.rails;
    let power = |row: i64, rows: i64| -> (ok: bool)
        ensures
            ok == (0 <= row < rails@.len() ==> rails@[row as int]),
        {
            let k: u64 = row as u64;
            if row < 0 || k >= rails.len() as u64 { true } else { rails[row as usize] }
        };
    let p: Option<&_> = if c.multi_row { Some(&power) } else { None };
    let r: bool = check_in_rows(g, c.x - g.core.0, c.y - g.core.1, c.w, c.h, c.site.as_str(), p);
    proof {
        let ok = |row: int, rows: int| 0 <= row < rails@.len() ==> rails@[row];
        assert(agrees_rows(power, ok));
        let cov = g.cover(c.x - g.core.0, c.y - g.core.1, c.w as int, c.h as int);
        if c.multi_row {
            assert(p == Some(&power));
            assert(p matches Some(f) && agrees_rows(*f, ok));
            assert(r == (squares_in_rows(*g, c.x - g.core.0, c.y - g.core.1, c.w as int, c.h as int, c.site@) && ok(cov.1, cov.3 - cov.1)));
        }
    }
    r
}

/// Is cell `i`'s padding respected in a grid that holds its body?
fn keeps_padding(d: &CheckInput, h: &Grid, i: usize, cov: (i64, i64, i64, i64), pads: (i32, i32)) -> (r: bool)
    requires
        d.in_range(),
        h.wf(),
        h.core == d.grid.core,
        i < d.cells@.len(),
        ids_below(*h, d.cells@.len() as int),
        -CHECK_LIMIT <= pads.0 <= CHECK_LIMIT,
        -CHECK_LIMIT <= pads.1 <= CHECK_LIMIT,
        (cov.0 as int, cov.1 as int, cov.2 as int, cov.3 as int) == d.covered(*h, i as int),
        -1 <= cov.1 <= cov.3 <= h.row_count,
    ensures
        r == d.padding_kept(*h, i as int, (pads.0 as int, pads.1 as int)),
{
    let c = &d.cells[i];
    proof {
        assert(check_cell_ok(d.grid.core, d.cells@[i as int]));
        lemma_cover_range(*h, c.x - h.core.0, c.y - h.core.1, c.w as int, c.h as int);
    }
    let at = |px: i32, py: i32| -> (r: Option<Claims>)
        requires
            h.wf(),
            ids_below_in(h, d.cells@.len() as int),
            d.cells@.len() <= 0x7fff_ffff,
        ensures
            r == d.claims_in(h, i as int)(px, py),
        {
            match h.pixel(px as i64, py as i64) {
                None => None,
                Some(p) => {
                    assert(h.px(px as int, py as int) == *p);
                    let a: Option<(Class, bool)> = match p.cell {
                        Some(o) => Some((classify(d.cells[o as usize].master_type.as_str()), o as usize == i)),
                        None => None,
                    };
                    let b: Option<(Class, bool)> = match p.padding_reserved_by {
                        Some(o) => Some((classify(d.cells[o as usize].master_type.as_str()), o as usize == i)),
                        None => None,
                    };
                    Some((a, b))
                },
            }
        };
    let r: bool = check_padding(cov.0 as i32, cov.2 as i32, cov.1 as i32, cov.3 as i32, pads.0, pads.1, classify(c.master_type.as_str()), &at);
    proof {
        assert(agrees2(at, d.claims(*h, i as int)));
    }
    r
}

/// Are cell `i`'s pins clear of blocked levels?
fn clears_levels(d: &CheckInput, h: &Grid, i: usize, cov: (i64, i64, i64, i64)) -> (r: bool)
    requires
        d.in_range(),
        h.wf(),
        h.core == d.grid.core,
        i < d.cells@.len(),
        (cov.0 as int, cov.1 as int, cov.2 as int, cov.3 as int) == d.covered(*h, i as int),
        -1 <= cov.1 <= cov.3 <= h.row_count,
    ensures
        r == d.levels_clear(*h, i as int),
{
    proof {
        let c = d.cells@[i as int];
        assert(check_cell_ok(d.grid.core, c));
        lemma_cover_range(*h, c.x - h.core.0, c.y - h.core.1, c.w as int, c.h as int);
    }
    let blocked = |px: i32, py: i32| -> (r: Option<u32>)
        requires
            h.wf(),
        ensures
            r == blocked_in_ref(h)(px, py),
        {
            match h.pixel(px as i64, py as i64) {
                None => None,
                Some(p) => Some(p.blocked_layers),
            }
        };
    let r: bool = check_blocked_layers(cov.0 as i32, cov.2 as i32, cov.1 as i32, cov.3 as i32, d.cells[i].used_layers, &blocked);
    proof {
        assert(agrees2(blocked, blocked_in(*h)));
    }
    r
}

/// Note what a cell is found guilty of.
fn note_all(out: &mut Vec<Failure>, cell: &String, rows: bool, region: bool, unplaced: bool, with: Option<&String>, padding: bool, edges: bool, levels: bool)
    ensures
        faults(final(out)@) == faults(old(out)@) + (fault_if(rows, "in_rows"@, cell@) + fault_if(region, "region_placement"@, cell@)
            + fault_if(unplaced, "placed"@, cell@) + overlap_faults(cell@, match with { Some(w) => Some(w@), None => None })
            + fault_if(padding, "padding"@, cell@) + fault_if(edges, "edge_spacing"@, cell@) + fault_if(levels, "blocked_layers"@, cell@)),
{
    let ghost f0 = faults(out@);
    let ghost a = fault_if(rows, "in_rows"@, cell@);
    let ghost b = fault_if(region, "region_placement"@, cell@);
    let ghost c = fault_if(unplaced, "placed"@, cell@);
    let ghost d = overlap_faults(cell@, match with { Some(w) => Some(w@), None => None });
    let ghost e = fault_if(padding, "padding"@, cell@);
    let ghost f = fault_if(edges, "edge_spacing"@, cell@);
    let ghost g = fault_if(levels, "blocked_layers"@, cell@);
    note_if(rows, out, "in_rows", cell);
    note_if(region, out, "region_placement", cell);
    note_if(unplaced, out, "placed", cell);
    note_overlap(out, cell, with);
    note_if(padding, out, "padding", cell);
    note_if(edges, out, "edge_spacing", cell);
    note_if(levels, out, "blocked_layers", cell);
    proof {
        assert(faults(out@) == f0 + a + b + c + d + e + f + g);
        lemma_join(f0, a, b, c, d, e, f, g);
    }
}

proof fn lemma_join(f0: Seq<Fault>, a: Seq<Fault>, b: Seq<Fault>, c: Seq<Fault>, d: Seq<Fault>, e: Seq<Fault>, f: Seq<Fault>, g: Seq<Fault>)
    ensures
        f0 + a + b + c + d + e + f + g == f0 + (a + b + c + d + e + f + g),
{
    assert(f0 + a + b + c + d + e + f + g =~= f0 + (a + b + c + d + e + f + g));
}

/// Check one cell against the cells painted before it, and paint it.
fn check_cell(d: &CheckInput, g: &Grid, regions: &Regions, h: &mut Grid, i: usize, pads: (i32, i32), origin: (i64, i64), out: &mut Vec<Failure>) -> (body: Ghost<Grid>)
    requires
        d.in_range(),
        g.wf(),
        g.core == d.grid.core,
        old(h).wf(),
        old(h).core == d.grid.core,
        i < d.cells@.len(),
        ids_below(*old(h), d.cells@.len() as int),
        -CHECK_LIMIT <= pads.0 <= CHECK_LIMIT,
        -CHECK_LIMIT <= pads.1 <= CHECK_LIMIT,
        origin.0 == d.left(),
        origin.1 == d.site(),
        -0x8000_0000 <= origin.0 <= 0x7fff_ffff,
        0 <= origin.1 <= 0x7fff_ffff,
    ensures
        final(h).wf(),
        final(h).same_frame(*old(h)),
        ids_below(*final(h), d.cells@.len() as int),
        d.painted(*old(h), body@, *final(h), i as int, (pads.0 as int, pads.1 as int)),
        faults(final(out)@) == faults(old(out)@) + d.faults_of(*g, *regions, *old(h), body@, i as int, (pads.0 as int, pads.1 as int)),
{
    let ghost h0 = *h;
    let ghost f0 = faults(out@);
    let c = &d.cells[i];
    let ghost n = c.name@;
    if is_misaligned(d, i, origin) {
        note(out, "site_align", &c.name);
        assert(faults(out@) =~= f0 + seq![fault("site_align"@, n)]);
        return Ghost(h0);
    }
    assert(check_cell_ok(d.grid.core, d.cells@[i as int]));
    let cx: i32 = c.x - g.core.0;
    let cy: i32 = c.y - g.core.1;
    let cov = h.covering(cx, cy, c.w, c.h);
    let blk: bool = contains(c.master_type.as_str(), "BLOCK");
    let row_bad: bool = !blk && !sits_in_rows(d, g, i);
    let region_bad: bool = !blk && !regions.check(c.name.as_str(), cx, cy, c.w, c.h, g.site_width, g.row_y.as_slice(), g.core.3);
    let partner = find_overlap(d, h, i, cov);
    let with: Option<&String> = match partner {
        Some(o) => Some(&d.cells[o].name),
        None => None,
    };
    let levels_bad: bool = !clears_levels(d, h, i, cov);
    let me: u32 = i as u32;
    h.paint_cell(cx, cy, c.w, c.h, Some(me));
    let ghost h1 = *h;
    proof {
        lemma_ids_kept(h0, h1, d.covered(h0, i as int), me, d.cells@.len() as int);
        h1.lemma_same_rows(h0, cy as int);
        if h0.row_count > 0 {
            h1.lemma_same_rows(h0, h0.row_y@[h0.snap_down(cy as int)] + c.h);
        }
        assert(d.covered(h1, i as int) == d.covered(h0, i as int));
        lemma_cover_range(h0, cx as int, cy as int, c.w as int, c.h as int);
    }
    let pad_bad: bool = !keeps_padding(d, h, i, cov, pads);
    h.paint_cell_padding(cov.0, cov.1, cov.2 - cov.0, c.h, pads.0 as i64, pads.1 as i64, me);
    let ghost h2 = *h;
    proof {
        assert forall|gx: int, gy: int| #![trigger h2.px(gx, gy)] h2.inside(gx, gy) implies {
            &&& h2.px(gx, gy).cell matches Some(o) ==> o < d.cells@.len()
            &&& h2.px(gx, gy).padding_reserved_by matches Some(o) ==> o < d.cells@.len()
        } by {
            assert(h1.inside(gx, gy));
            let p = h1.px(gx, gy);
        }
    }
    note_all(out, &c.name, row_bad, region_bad, !c.placed, with, pad_bad, !c.edges_ok, levels_bad);
    Ghost(h1)
}

// ── the whole check ──────────────────────────────────────────────────────────────────────────

/// One text if `cond`, else none.
pub open spec fn text_if(cond: bool, t: Seq<char>) -> Seq<Seq<char>> {
    if cond { seq![t] } else { Seq::empty() }
}

/// What is said of one-site gaps where they are not checked.
pub open spec fn gaps_unchecked() -> Seq<char> {
    "one_site_gap (the technology HAS a one-site master, so upstream does not apply it)"@
}

/// What is said of edge spacing where the edges are not known.
pub open spec fn edges_unchecked() -> Seq<char> {
    "edge_spacing (no cell edges given)"@
}

/// What is said of power rails where they are not known.
pub open spec fn rails_limited() -> Seq<char> {
    "in_rows: no power rails given, so those of multi-row cells are not compared"@
}

/// What is said where no grid can be made: every family that reads it is left unchecked.
pub open spec fn bare_unchecked(disallow: bool, why: Seq<char>) -> Seq<Seq<char>> {
    seq![
        "in_rows (grid unavailable: "@ + why + ")"@,
        "region_placement (grid unavailable)"@,
        "padding (grid unavailable)"@,
        "edge_spacing (grid unavailable)"@,
        if disallow { "one_site_gap (grid unavailable)"@ } else { gaps_unchecked() },
        layers_unchecked(),
    ]
}

/// What is said of blocked layers where none is recorded.
pub open spec fn layers_unchecked() -> Seq<char> {
    "blocked_layers (no vertical M2/M3 special wire in this design: the mask is empty, so a pass would be vacuous)"@
}

/// What is said of padding where none is given.
pub open spec fn padding_limited() -> Seq<char> {
    "padding: no set_placement_padding given, so only class-pair conflicts are caught"@
}

/// What is said of one-site gaps where they are checked.
pub open spec fn gaps_limited() -> Seq<char> {
    "one_site_gap: PlacementDRC's reading, where a square off the grid counts as OCCUPIED — Place.cpp reads the same test the other way"@
}

/// What is said of blocked layers where `n` squares carry one.
pub open spec fn layers_limited(n: nat) -> Seq<char> {
    "blocked_layers: "@ + decimal(n) + " grid square(s) carry a blocked level, from vertical M2/M3 special wires only"@
}

fn push_if(v: &mut Vec<String>, cond: bool, t: &str)
    ensures
        texts(final(v)@) == texts(old(v)@) + text_if(cond, t@),
{
    let ghost v0 = v@;
    if cond {
        v.push(t.to_owned());
        assert(texts(v@) =~= texts(v0) + text_if(cond, t@));
    } else {
        assert(texts(v0) =~= texts(v0) + text_if(cond, t@));
    }
}

impl CheckInput {
    /// Whether `r` is the report on the grid `g` by a visit of every cell.
    pub open spec fn checked(&self, disallow: bool, padding: Option<Seq<(i32, i32)>>, g: Grid, regions: Regions, hs: Seq<Grid>, bodies: Seq<Grid>, found: Seq<Failure>, r: Report) -> bool {
        let n = self.cells@.len() as int;
        let marked = crate::grid::count_in_rows(g.pixels@, |p: Pixel| p.blocked_layers != 0);
        &&& self.grid.makes(g)
        &&& regions.built_of(self.groups@, g.core, self.names(), |name: Seq<char>| self.location(name, 0))
        &&& self.visited(padding, hs, bodies, n)
        &&& self.grid.makes(hs[0])
        &&& faults(found) == self.faults_upto(g, regions, padding, hs, bodies, n) + if disallow { self.gaps_upto(hs[n], n) } else { Seq::empty() }
        &&& failures_sorted(r.failures@)
        &&& r.failures@.to_multiset() == found.to_multiset()
        &&& texts(r.not_checked@) == text_if(!disallow, gaps_unchecked()) + text_if(self.grid.straps@.len() == 0, layers_unchecked())
            + text_if(!self.edges_known, edges_unchecked())
        &&& texts(r.limitations@) == text_if(padding is None, padding_limited()) + text_if(disallow, gaps_limited())
            + text_if(self.grid.straps@.len() > 0, layers_limited(marked)) + text_if(!self.rails_known, rails_limited())
    }

    /// Whether `r` is the report where no grid can be made, for the reason `e`.
    pub open spec fn checked_bare(&self, disallow: bool, e: GridError, found: Seq<Failure>, r: Report) -> bool {
        &&& self.grid.refused(e)
        &&& faults(found) == self.bare_faults(self.cells@.len() as int)
        &&& failures_sorted(r.failures@)
        &&& r.failures@.to_multiset() == found.to_multiset()
        &&& texts(r.not_checked@) == bare_unchecked(disallow, e.text())
        &&& r.limitations@.len() == 0
    }

    /// Whether `r` is the report on a design.
    pub open spec fn reported(&self, disallow: bool, padding: Option<Seq<(i32, i32)>>, r: Report) -> bool {
        &&& r.cells_checked == self.cells@.len()
        &&& if self.grid.makeable() {
            exists|g: Grid, regions: Regions, hs: Seq<Grid>, bodies: Seq<Grid>, found: Seq<Failure>| #[trigger] self.checked(disallow, padding, g, regions, hs, bodies, found, r)
        } else {
            exists|e: GridError, found: Seq<Failure>| #[trigger] self.checked_bare(disallow, e, found, r)
        }
    }
}

/// The padding given, by view.
pub open spec fn padding_view(p: Option<&Vec<(i32, i32)>>) -> Option<Seq<(i32, i32)>> {
    match p { Some(v) => Some(v@), None => None }
}

/// The padding given is one pair per cell, in range.
pub open spec fn padding_ok(d: CheckInput, p: Option<&Vec<(i32, i32)>>) -> bool {
    p matches Some(v) ==> {
        &&& v@.len() == d.cells@.len()
        &&& forall|i: int| 0 <= i < v@.len() ==> -CHECK_LIMIT <= (#[trigger] v@[i]).0 <= CHECK_LIMIT && -CHECK_LIMIT <= v@[i].1 <= CHECK_LIMIT
    }
}

/// The regions of a design.
fn find_regions(d: &CheckInput, core: (i32, i32, i32, i32)) -> (r: Regions)
    requires
        d.in_range(),
        core == d.grid.core,
    ensures
        r.built_of(d.groups@, core, d.names(), |name: Seq<char>| d.location(name, 0)),
{
    let mut names: Vec<String> = Vec::new();
    let mut k: usize = 0;
    while k < d.cells.len()
        invariant
            k <= d.cells@.len(),
            names@ == d.names().subrange(0, k as int),
        decreases d.cells@.len() - k,
    {
        names.push(d.cells[k].name.clone());
        k = k + 1;
        assert(names@ =~= d.names().subrange(0, k as int));
    }
    assert(names@ =~= d.names());
    let loc = |n: &str| -> (b: Option<Box4>)
        requires
            d.in_range(),
        ensures
            b == d.location(n@, 0),
        { cell_location(d, n) };
    let r = Regions::build(d.groups.as_slice(), core, names.as_slice(), &loc);
    proof {
        let f = |name: Seq<char>| d.location(name, 0);
        assert(crate::regions::agrees_name(loc, f));
    }
    r
}

/// Where the first cell with a name sits.
fn cell_location(d: &CheckInput, name: &str) -> (r: Option<Box4>)
    requires
        d.in_range(),
    ensures
        r == d.location(name@, 0),
{
    let mut k: usize = 0;
    while k < d.cells.len()
        invariant
            d.in_range(),
            k <= d.cells@.len(),
            d.location(name@, k as int) == d.location(name@, 0),
        decreases d.cells@.len() - k,
    {
        let c = &d.cells[k];
        assert(check_cell_ok(d.grid.core, d.cells@[k as int]));
        if same_text(c.name.as_str(), name) {
            return Some((c.x - d.grid.core.0, c.y - d.grid.core.1, c.w, c.h));
        }
        k = k + 1;
    }
    None
}

/// Note the gaps of one site that the cells leave.
fn check_gaps(d: &CheckInput, h: &Grid, out: &mut Vec<Failure>)
    requires
        d.in_range(),
        h.wf(),
        h.core == d.grid.core,
    ensures
        faults(final(out)@) == faults(old(out)@) + d.gaps_upto(*h, d.cells@.len() as int),
{
    let ghost f0 = faults(out@);
    let at = |px: i64, py: i64| -> (r: Option<(bool, bool)>)
        requires
            h.wf(),
        ensures
            r == squares_of_ref(h)(px as int, py as int),
        {
            match h.pixel(px, py) {
                None => None,
                Some(p) => Some((p.is_valid, p.cell.is_some())),
            }
        };
    let mut i: usize = 0;
    assert(faults(out@) =~= f0 + d.gaps_upto(*h, 0));
    while i < d.cells.len()
        invariant
            d.in_range(),
            h.wf(),
            h.core == d.grid.core,
            i <= d.cells@.len(),
            forall|a: i64, b: i64| #[trigger] at.requires((a, b)),
            agrees_squares(at, squares_of(*h)),
            faults(out@) == f0 + d.gaps_upto(*h, i as int),
        decreases d.cells@.len() - i,
    {
        let c = &d.cells[i];
        assert(check_cell_ok(d.grid.core, d.cells@[i as int]));
        let cov = h.covering(c.x - h.core.0, c.y - h.core.1, c.w, c.h);
        let gap: bool = check_one_site_gaps(cov.0, cov.1, cov.2, cov.3, &at);
        assert(gap == gap_upto(squares_of(*h), cov.0 as int, cov.1 as int, cov.2 as int, cov.3 as int));
        note_if(gap, out, "one_site_gap", &c.name);
        assert(faults(out@) =~= f0 + d.gaps_upto(*h, i + 1));
        i = i + 1;
    }
}

spec fn squares_of_ref(h: &Grid) -> spec_fn(int, int) -> Option<(bool, bool)> {
    squares_of(*h)
}

/// Check the cells where no grid can be made: alignment, placement, and overlap with earlier cells.
fn check_bare(d: &CheckInput, origin: (i64, i64)) -> (out: Vec<Failure>)
    requires
        d.in_range(),
        origin.0 == d.left(),
        origin.1 == d.site(),
        -0x8000_0000 <= origin.0 <= 0x7fff_ffff,
        0 <= origin.1 <= 0x7fff_ffff,
    ensures
        faults(out@) == d.bare_faults(d.cells@.len() as int),
{
    let mut out: Vec<Failure> = Vec::new();
    let mut i: usize = 0;
    assert(faults(out@) =~= d.bare_faults(0));
    while i < d.cells.len()
        invariant
            d.in_range(),
            origin.0 == d.left(),
            origin.1 == d.site(),
            -0x8000_0000 <= origin.0 <= 0x7fff_ffff,
            0 <= origin.1 <= 0x7fff_ffff,
            i <= d.cells@.len(),
            faults(out@) == d.bare_faults(i as int),
        decreases d.cells@.len() - i,
    {
        let c = &d.cells[i];
        let ghost f0 = faults(out@);
        if is_misaligned(d, i, origin) {
            note(&mut out, "site_align", &c.name);
            assert(faults(out@) =~= d.bare_faults(i + 1));
        } else {
            note_if(!c.placed, &mut out, "placed", &c.name);
            let mut j: usize = 0;
            let mut found: Option<usize> = None;
            assert(check_cell_ok(d.grid.core, d.cells@[i as int]));
            let blk: bool = contains(c.master_type.as_str(), "BLOCK");
            let mine: (i64, i64, i64, i64) = (c.x as i64, c.y as i64, c.w as i64, c.h as i64);
            while j < i && found.is_none()
                invariant
                    d.in_range(),
                    origin.0 == d.left(),
                    origin.1 == d.site(),
                    -0x8000_0000 <= origin.0 <= 0x7fff_ffff,
                    0 <= origin.1 <= 0x7fff_ffff,
                    i < d.cells@.len(),
                    j <= i,
                    c == &d.cells@[i as int],
                    blk == is_block(*c),
                    wide(mine) == cell_box(*c),
                    box_fits(mine),
                    found is None ==> d.earlier_overlap(i as int, j as int) == d.earlier_overlap(i as int, 0),
                    found matches Some(o) ==> o < d.cells@.len() && d.earlier_overlap(i as int, 0) == Some(o as int),
                decreases i - j, (if found is None { 1int } else { 0int }),
            {
                let oc = &d.cells[j];
                assert(check_cell_ok(d.grid.core, d.cells@[j as int]));
                let theirs: (i64, i64, i64, i64) = (oc.x as i64, oc.y as i64, oc.w as i64, oc.h as i64);
                if !is_misaligned(d, j, origin) && !(blk && contains(oc.master_type.as_str(), "BLOCK")) && rects_overlap(mine, theirs) {
                    found = Some(j);
                } else {
                    j = j + 1;
                }
            }
            let with: Option<&String> = match found {
                Some(o) => Some(&d.cells[o].name),
                None => None,
            };
            note_overlap(&mut out, &c.name, with);
            assert(faults(out@) =~= d.bare_faults(i + 1));
        }
        i = i + 1;
    }
    out
}

/// Say what goes unchecked without a grid.
fn not_checked_bare(v: &mut Vec<String>, e: &GridError, disallow: bool)
    requires
        old(v)@.len() == 0,
    ensures
        texts(final(v)@) == bare_unchecked(disallow, e.text()),
{
    let mut s = "in_rows (grid unavailable: ".to_owned();
    s.append(e.message().as_str());
    s.append(")");
    v.push(s);
    v.push("region_placement (grid unavailable)".to_owned());
    v.push("padding (grid unavailable)".to_owned());
    v.push("edge_spacing (grid unavailable)".to_owned());
    if disallow {
        v.push("one_site_gap (grid unavailable)".to_owned());
    } else {
        v.push("one_site_gap (the technology HAS a one-site master, so upstream does not apply it)".to_owned());
    }
    v.push("blocked_layers (no vertical M2/M3 special wire in this design: the mask is empty, so a pass would be vacuous)".to_owned());
    assert(texts(v@) =~= bare_unchecked(disallow, e.text()));
}

/// Check a design, with the one-site-gap decision and the padding supplied.
pub fn check_placement_opts(d: &CheckInput, disallow_one_site_gaps: bool, padding: Option<&Vec<(i32, i32)>>) -> (r: Report)
    requires
        d.in_range(),
        padding_ok(*d, padding),
    ensures
        d.reported(disallow_one_site_gaps, padding_view(padding), r),
{
    let origin = row_origin(d);
    let n: usize = d.cells.len();
    let ghost pv = padding_view(padding);
    let mut not_checked: Vec<String> = Vec::new();
    let mut limitations: Vec<String> = Vec::new();
    assert(texts(limitations@) =~= Seq::<Seq<char>>::empty());
    assert(texts(not_checked@) =~= Seq::<Seq<char>>::empty());
    let g = match Grid::build(&d.grid) {
        Ok(g) => g,
        Err(e) => {
            not_checked_bare(&mut not_checked, &e, disallow_one_site_gaps);
            let found = check_bare(d, origin);
            let failures = sort_failures(&found);
            let r = Report { failures, cells_checked: n, not_checked, limitations };
            proof {
                assert(d.checked_bare(disallow_one_site_gaps, e, found@, r));
                assert(!d.grid.makeable());
            }
            return r;
        },
    };
    push_if(&mut limitations, padding.is_none(), "padding: no set_placement_padding given, so only class-pair conflicts are caught");
    push_if(&mut limitations, disallow_one_site_gaps, "one_site_gap: PlacementDRC's reading, where a square off the grid counts as OCCUPIED — Place.cpp reads the same test the other way");
    assert(texts(limitations@) =~= text_if(pv is None, padding_limited()) + text_if(disallow_one_site_gaps, gaps_limited()));
    let mut h = match Grid::build(&d.grid) {
        Ok(h) => h,
        Err(_) => {
            assert(false);
            return Report { failures: Vec::new(), cells_checked: n, not_checked, limitations };
        },
    };
    let ghost h0 = h;
    let regions = find_regions(d, g.core);
    push_if(&mut not_checked, !disallow_one_site_gaps, "one_site_gap (the technology HAS a one-site master, so upstream does not apply it)");
    let (populated, marked) = g.blocked_layer_status();
    push_if(&mut not_checked, !populated, "blocked_layers (no vertical M2/M3 special wire in this design: the mask is empty, so a pass would be vacuous)");
    let ghost lim0 = texts(limitations@);
    if populated {
        let mut s = "blocked_layers: ".to_owned();
        append_decimal(&mut s, marked as u128);
        s.append(" grid square(s) carry a blocked level, from vertical M2/M3 special wires only");
        limitations.push(s);
        assert(texts(limitations@) =~= lim0 + text_if(true, layers_limited(marked as nat)));
    } else {
        assert(lim0 =~= lim0 + text_if(false, layers_limited(marked as nat)));
    }
    push_if(&mut not_checked, !d.edges_known, "edge_spacing (no cell edges given)");
    push_if(&mut limitations, !d.rails_known, "in_rows: no power rails given, so those of multi-row cells are not compared");
    let mut out: Vec<Failure> = Vec::new();
    let ghost mut hs: Seq<Grid> = seq![h0];
    let ghost mut bodies: Seq<Grid> = Seq::empty();
    let mut i: usize = 0;
    proof {
        assert(faults(out@) =~= Seq::<Fault>::empty());
        assert forall|gx: int, gy: int| #![trigger h0.px(gx, gy)] h0.inside(gx, gy) implies {
            &&& h0.px(gx, gy).cell matches Some(o) ==> o < n
            &&& h0.px(gx, gy).padding_reserved_by matches Some(o) ==> o < n
        } by {}
    }
    while i < n
        invariant
            n == d.cells@.len(),
            i <= n,
            d.in_range(),
            padding_ok(*d, padding),
            pv == padding_view(padding),
            g.wf(),
            g.core == d.grid.core,
            h.wf(),
            h.core == d.grid.core,
            ids_below(h, n as int),
            origin.0 == d.left(),
            origin.1 == d.site(),
            -0x8000_0000 <= origin.0 <= 0x7fff_ffff,
            0 <= origin.1 <= 0x7fff_ffff,
            hs[0] == h0,
            hs[i as int] == h,
            d.visited(pv, hs, bodies, i as int),
            faults(out@) == d.faults_upto(g, regions, pv, hs, bodies, i as int),
        decreases n - i,
    {
        let pads: (i32, i32) = match padding {
            Some(v) => v[i],
            None => (0, 0),
        };
        let ghost hs0 = hs;
        let ghost b0 = bodies;
        let body = check_cell(d, &g, &regions, &mut h, i, pads, origin, &mut out);
        proof {
            hs = hs.push(h);
            bodies = bodies.push(body@);
            assert forall|k: int| 0 <= k < i + 1 implies d.painted(hs[k], #[trigger] bodies[k], hs[k + 1], k, pads_of(pv, k)) by {
                if k < i {
                    assert(bodies[k] == b0[k]);
                    assert(hs[k] == hs0[k] && hs[k + 1] == hs0[k + 1]);
                } else {
                    assert(hs[k] == hs0[k]);
                }
            }
            lemma_faults_prefix(*d, g, regions, pv, hs0, b0, hs, bodies, i as int);
            assert(hs[i as int] == hs0[i as int]);
        }
        i = i + 1;
    }
    if disallow_one_site_gaps {
        check_gaps(d, &h, &mut out);
    } else {
        assert(faults(out@) =~= d.faults_upto(g, regions, pv, hs, bodies, n as int) + Seq::<Fault>::empty());
    }
    let failures = sort_failures(&out);
    let r = Report { failures, cells_checked: n, not_checked, limitations };
    proof {
        assert(texts(r.not_checked@) =~= text_if(!disallow_one_site_gaps, gaps_unchecked()) + text_if(d.grid.straps@.len() == 0, layers_unchecked())
            + text_if(!d.edges_known, edges_unchecked()));
        assert(d.checked(disallow_one_site_gaps, pv, g, regions, hs, bodies, out@, r));
    }
    r
}

/// What earlier cells are found guilty of does not depend on later ones.
proof fn lemma_faults_prefix(d: CheckInput, g: Grid, regions: Regions, pv: Option<Seq<(i32, i32)>>, hs0: Seq<Grid>, b0: Seq<Grid>, hs: Seq<Grid>, bodies: Seq<Grid>, n: int)
    requires
        0 <= n <= hs0.len(),
        n <= b0.len(),
        hs0.len() <= hs.len(),
        b0.len() <= bodies.len(),
        forall|k: int| 0 <= k < n ==> #[trigger] hs[k] == hs0[k],
        forall|k: int| 0 <= k < n ==> #[trigger] bodies[k] == b0[k],
    ensures
        d.faults_upto(g, regions, pv, hs, bodies, n) == d.faults_upto(g, regions, pv, hs0, b0, n),
    decreases n,
{
    if n > 0 {
        lemma_faults_prefix(d, g, regions, pv, hs0, b0, hs, bodies, n - 1);
        assert(hs[n - 1] == hs0[n - 1] && bodies[n - 1] == b0[n - 1]);
    }
}

/// Check a design as its technology asks: gaps of one site are violations where no master is one
/// site wide; no padding is given.
pub fn check_placement(d: &CheckInput) -> (r: Report)
    requires
        d.in_range(),
    ensures
        d.reported(!d.has_one_site_master, None, r),
{
    check_placement_opts(d, !d.has_one_site_master, None)
}

proof fn lemma_no_faults(d: CheckInput, g: Grid, regions: Regions, pv: Option<Seq<(i32, i32)>>, hs: Seq<Grid>, bodies: Seq<Grid>, n: int, i: int)
    requires
        d.faults_upto(g, regions, pv, hs, bodies, n).len() == 0,
        0 <= i < n,
    ensures
        d.faults_of(g, regions, hs[i], bodies[i], i, pads_of(pv, i)).len() == 0,
    decreases n,
{
    if i < n - 1 {
        lemma_no_faults(d, g, regions, pv, hs, bodies, n - 1, i);
    }
}

/// A clean report vouches for every cell: each is aligned, sits in rows, is placed, overlaps no cell
/// visited before it and respects its padding.
pub proof fn law_clean_report_vouches(d: CheckInput, disallow: bool, padding: Option<Seq<(i32, i32)>>, g: Grid, regions: Regions, hs: Seq<Grid>, bodies: Seq<Grid>, found: Seq<Failure>, r: Report, i: int)
    requires
        d.checked(disallow, padding, g, regions, hs, bodies, found, r),
        r.failures@.len() == 0,
        0 <= i < d.cells@.len(),
    ensures
        !d.misaligned(i),
        is_block(d.cells@[i]) || d.in_rows(g, i),
        d.cells@[i].placed,
        d.overlapped(hs[i], i) is None,
        d.padding_kept(bodies[i], i, pads_of(padding, i)),
        d.levels_clear(hs[i], i),
{
    let n = d.cells@.len() as int;
    r.failures@.to_multiset_ensures();
    found.to_multiset_ensures();
    assert(found.len() == 0);
    assert(faults(found).len() == 0);
    lemma_no_faults(d, g, regions, padding, hs, bodies, n, i);
    let all = d.faults_of(g, regions, hs[i], bodies[i], i, pads_of(padding, i));
    assert(all.len() == 0);
}

} // verus!
