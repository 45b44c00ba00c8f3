//! The diamond legalizer: seat every cell at the nearest legal square, hardest cells first.

use vstd::prelude::*;
use vstd::relations::{sorted_by, total_ordering};
use crate::arith::{ceil_quot, dist, distance, imax, imin, max64, min64, round_quot, trunc_quot};
use crate::diamond::{agrees_far, callable, DiamondWalk, Spread};
use crate::grid::{nearest_ix, offers, Grid, GridError, GridInput, Stamp};
use crate::neg_legalize::{lemma_columns_absolute, lemma_rows_absolute, rows_fit};
use crate::regions::{agrees_name, assignments, clip_fits, clipped, foot_inside, grid_within, group_init_pixels, grouped_pixel, is_group_of, merged, placement_groups, tree_of, with_region, within, Box4, Group, GroupInput, Regions};
use crate::sort::{ascending, sorted_in, ByName, Order};

pub use crate::diamond::diamond_points;
use crate::tally::{count_up, exclusion_key, exclusion_key_of, is_tally};
use crate::text::{comes_before, contains, has_part, lemma_text_less_antisym, lemma_text_less_total, lemma_text_less_trans, same_text, text_less, texts};

verus! {

/// Where a cell ended up.
#[derive(Debug)]
pub struct Placed {
    pub name: String,
    /// Absolute, ready to write back.
    pub x: i32,
    pub y: i32,
    /// `None` leaves the instance's orientation alone.
    pub orient: Option<String>,
    pub moved: bool,
    /// Where the cell started, in grid units: site column and row.
    pub init_grid: Option<(i32, i32)>,
    /// The cell's footprint in grid units: sites and rows.
    pub footprint: Option<(i32, i32)>,
}

/// The result of a legalization run.
#[derive(Debug)]
pub struct Legalized {
    pub placed: Vec<Placed>,
    pub failures: Vec<String>,
    pub not_done: Vec<String>,
    /// Instances left out of the model, counted by master type and placement status.
    pub filtered_out: Vec<(String, usize)>,
}

// ── the order of placement ───────────────────────────────────────────────────────────────────

/// What the placement order needs to know about a cell.
#[derive(Debug, PartialEq, Eq)]
pub struct OrderKey {
    pub multi_row: bool,
    pub area: i64,
    /// Distance along both axes from the core centre, in absolute coordinates, to the cell's lower left corner,
    /// in coordinates relative to the core.
    pub center_dist: i64,
    pub name: String,
}

/// A key's contents.
pub struct KeyParts {
    pub multi_row: bool,
    pub area: int,
    pub center_dist: int,
    pub name: Seq<char>,
}

impl OrderKey {
    pub open spec fn parts(&self) -> KeyParts {
        KeyParts { multi_row: self.multi_row, area: self.area as int, center_dist: self.center_dist as int, name: self.name@ }
    }
}

/// Whether `a` is placed before `b`: cells of several rows first, then larger ones, then those
/// nearer the core centre, then by name.
pub open spec fn parts_before(a: KeyParts, b: KeyParts) -> bool {
    if a.multi_row != b.multi_row {
        a.multi_row
    } else {
        ||| a.area > b.area
        ||| a.area == b.area && a.center_dist < b.center_dist
        ||| a.area == b.area && a.center_dist == b.center_dist && text_less(a.name, b.name)
    }
}

/// Is `a` placed before `b`?
pub fn place_before(a: &OrderKey, b: &OrderKey) -> (r: bool)
    ensures
        r == parts_before(a.parts(), b.parts()),
{
    if a.multi_row != b.multi_row {
        return a.multi_row;
    }
    a.area > b.area
        || (a.area == b.area
            && (a.center_dist < b.center_dist
                || (a.center_dist == b.center_dist && comes_before(a.name.as_str(), b.name.as_str()))))
}

/// Of two keys neither comes before itself or both ways; different ones have an order.
pub proof fn law_placement_order(a: KeyParts, b: KeyParts, c: KeyParts)
    ensures
        !parts_before(a, a),
        !(parts_before(a, b) && parts_before(b, a)),
        parts_before(a, b) && parts_before(b, c) ==> parts_before(a, c),
        parts_before(a, b) || parts_before(b, a) || a == b,
{
    lemma_text_less_antisym(a.name, b.name);
    if text_less(a.name, b.name) && text_less(b.name, c.name) {
        lemma_text_less_trans(a.name, b.name, c.name);
    }
    lemma_text_less_total(a.name, b.name);
}

/// Keys in the order of placement; equal keys by their position.
pub struct ByKey<'a> {
    pub keys: &'a Vec<OrderKey>,
}

/// The contents of the key at a position.
pub open spec fn parts_at(keys: Seq<OrderKey>, i: int) -> KeyParts {
    if i < keys.len() { keys[i].parts() } else { KeyParts { multi_row: false, area: 0, center_dist: 0, name: Seq::empty() } }
}

impl<'a> Order<usize> for ByKey<'a> {
    open spec fn leq(&self, a: usize, b: usize) -> bool {
        let (x, y) = (parts_at(self.keys@, a as int), parts_at(self.keys@, b as int));
        parts_before(x, y) || x == y && a <= b
    }

    open spec fn knows(&self, k: usize) -> bool {
        k < self.keys@.len()
    }

    proof fn order_laws(&self) {
        let leq = |a: usize, b: usize| self.leq(a, b);
        assert forall|a: usize, b: usize| #[trigger] leq(a, b) && #[trigger] leq(b, a) implies a == b by {
            law_placement_order(parts_at(self.keys@, a as int), parts_at(self.keys@, b as int), parts_at(self.keys@, b as int));
        }
        assert forall|a: usize, b: usize, c: usize| #[trigger] leq(a, b) && #[trigger] leq(b, c) implies leq(a, c) by {
            law_placement_order(parts_at(self.keys@, a as int), parts_at(self.keys@, b as int), parts_at(self.keys@, c as int));
        }
        assert forall|a: usize, b: usize| #[trigger] leq(a, b) || #[trigger] leq(b, a) by {
            law_placement_order(parts_at(self.keys@, a as int), parts_at(self.keys@, b as int), parts_at(self.keys@, b as int));
        }
    }

    fn at_most(&self, a: usize, b: usize) -> (r: bool) {
        let x = &self.keys[a];
        let y = &self.keys[b];
        place_before(x, y) || (x.multi_row == y.multi_row && x.area == y.area && x.center_dist == y.center_dist
            && same_text(x.name.as_str(), y.name.as_str()) && a <= b)
    }
}

/// No key comes before one that stands ahead of it.
pub open spec fn placement_sorted(s: Seq<OrderKey>) -> bool {
    forall|i: int, j: int| 0 <= i < j < s.len() ==> !parts_before((#[trigger] s[j]).parts(), (#[trigger] s[i]).parts())
}

fn copy_key(k: &OrderKey) -> (r: OrderKey)
    ensures
        r == *k,
{
    OrderKey { multi_row: k.multi_row, area: k.area, center_dist: k.center_dist, name: k.name.clone() }
}

/// Picking every position of a list once rearranges it.
pub proof fn lemma_permuted<T>(a: Seq<T>, ix: Seq<usize>, b: Seq<T>)
    requires
        ix.to_multiset() == crate::network::numbers(a.len()).to_multiset(),
        a.len() <= usize::MAX,
        b.len() == ix.len(),
        forall|k: int| 0 <= k < ix.len() ==> ix[k] < a.len() && #[trigger] b[k] == a[ix[k] as int],
    ensures
        b.to_multiset() == a.to_multiset(),
{
    let f = |i: usize| if i < a.len() { a[i as int] } else { a[0] };
    let n = crate::network::numbers(a.len());
    assert(b =~= ix.map_values(f));
    assert(a =~= n.map_values(f));
    lemma_map_multiset(ix, n, f);
}

/// Two rearrangements of each other have rearranged images.
proof fn lemma_map_multiset<K, T>(s: Seq<K>, t: Seq<K>, f: spec_fn(K) -> T)
    requires
        s.to_multiset() == t.to_multiset(),
    ensures
        s.map_values(f).to_multiset() == t.map_values(f).to_multiset(),
    decreases s.len(),
{
    s.to_multiset_ensures();
    t.to_multiset_ensures();
    if s.len() == 0 {
        assert(t.len() == 0);
        assert(s.map_values(f) =~= t.map_values(f));
    } else {
        let x = s.last();
        assert(s.contains(x));
        assert(t.to_multiset().count(x) > 0);
        assert(t.contains(x));
        let k = choose|k: int| 0 <= k < t.len() && t[k] == x;
        let s1 = s.drop_last();
        let t1 = t.remove(k);
        assert(s1.push(x) =~= s);
        s1.to_multiset_ensures();
        assert(s1.to_multiset() =~= s.to_multiset().remove(x)) by {
            assert(s.to_multiset() == s1.to_multiset().insert(x));
        }
        assert(t1.to_multiset() =~= t.to_multiset().remove(x));
        lemma_map_multiset(s1, t1, f);
        let fs = s.map_values(f);
        let ft = t.map_values(f);
        assert(fs =~= s1.map_values(f).push(f(x)));
        s1.map_values(f).to_multiset_ensures();
        assert(ft.remove(k) =~= t1.map_values(f));
        ft.to_multiset_ensures();
        assert(ft[k] == f(x));
        assert(ft.to_multiset().count(f(x)) > 0) by {
            assert(ft.contains(f(x)));
        }
        assert(ft.to_multiset() =~= ft.to_multiset().remove(f(x)).insert(f(x)));
        assert(fs.to_multiset() =~= ft.to_multiset());
    }
}

/// Sort cells into the order of placement.
pub fn sort_for_placement(cells: &mut Vec<OrderKey>)
    ensures
        placement_sorted(final(cells)@),
        final(cells)@.to_multiset() == old(cells)@.to_multiset(),
        final(cells)@.len() == old(cells)@.len(),
{
    let ghost old_cells = cells@;
    let n: usize = cells.len();
    let mut all: Vec<usize> = Vec::new();
    while all.len() < n
        invariant
            all@.len() <= n,
            all@ == crate::network::numbers(n as nat).subrange(0, all@.len() as int),
        decreases n - all@.len(),
    {
        let ghost k = all@.len() as int;
        all.push(all.len());
        assert(all@ =~= crate::network::numbers(n as nat).subrange(0, k + 1));
    }
    assert(all@ =~= crate::network::numbers(n as nat));
    let ix = sorted_in(&ByKey { keys: cells }, &all);
    let ghost o = ByKey { keys: cells };
    proof {
        let below = |i: usize| i < n;
        crate::sort::lemma_rearranged(all@, ix@, below);
    }
    let mut out: Vec<OrderKey> = Vec::new();
    let mut k: usize = 0;
    while k < n
        invariant
            k <= n,
            n == ix@.len(),
            cells@ == old_cells,
            n == cells@.len(),
            forall|j: int| 0 <= j < n ==> #[trigger] ix@[j] < n,
            out@.len() == k,
            forall|j: int| 0 <= j < k ==> #[trigger] out@[j] == old_cells[ix@[j] as int],
        decreases n - k,
    {
        out.push(copy_key(&cells[ix[k]]));
        k = k + 1;
    }
    proof {
        assert forall|i: int, j: int| 0 <= i < j < out@.len() implies !parts_before((#[trigger] out@[j]).parts(), (#[trigger] out@[i]).parts()) by {
            assert(o.leq(ix@[i], ix@[j]));
            law_placement_order(out@[i].parts(), out@[j].parts(), out@[j].parts());
        }
        lemma_permuted(old_cells, ix@, out@);
    }
    *cells = out;
}

/// The order of placement does not depend on the order the cells came in.
pub proof fn law_placement_ignores_input_order(a: Seq<KeyParts>, b: Seq<KeyParts>)
    requires
        a.to_multiset() == b.to_multiset(),
        forall|i: int, j: int| 0 <= i < j < a.len() ==> !parts_before(#[trigger] a[j], #[trigger] a[i]),
        forall|i: int, j: int| 0 <= i < j < b.len() ==> !parts_before(#[trigger] b[j], #[trigger] b[i]),
    ensures
        a == b,
{
    let leq = |x: KeyParts, y: KeyParts| parts_before(x, y) || x == y;
    assert(total_ordering(leq)) by {
        assert forall|x: KeyParts, y: KeyParts| #[trigger] leq(x, y) && #[trigger] leq(y, x) implies x == y by {
            law_placement_order(x, y, y);
        }
        assert forall|x: KeyParts, y: KeyParts, z: KeyParts| #[trigger] leq(x, y) && #[trigger] leq(y, z) implies leq(x, z) by {
            law_placement_order(x, y, z);
        }
        assert forall|x: KeyParts, y: KeyParts| #[trigger] leq(x, y) || #[trigger] leq(y, x) by {
            law_placement_order(x, y, y);
        }
    }
    assert(sorted_by(a, leq)) by {
        assert forall|i: int, j: int| 0 <= i < j < a.len() implies #[trigger] leq(a[i], a[j]) by {
            law_placement_order(a[i], a[j], a[j]);
        }
    }
    assert(sorted_by(b, leq)) by {
        assert forall|i: int, j: int| 0 <= i < j < b.len() implies #[trigger] leq(b[i], b[j]) by {
            law_placement_order(b[i], b[j], b[j]);
        }
    }
    vstd::seq_lib::lemma_sorted_unique(a, b, leq);
    assert(a =~= b);
}

// ── where a cell should go ───────────────────────────────────────────────────────────────────

/// One cell the legalizer may move.
#[derive(Debug)]
pub struct Movable {
    pub name: String,
    pub key: OrderKey,
    /// Where it starts, core-relative.
    pub x: i32,
    pub y: i32,
    pub w: i32,
    pub h: i32,
    pub site: String,
}

impl Movable {
    /// The initial footprint: corner and size.
    pub open spec fn foot(&self) -> Box4 {
        (self.x, self.y, self.w, self.h)
    }
}

/// Does the initial footprint lie wholly inside a box, edges included?
pub fn is_inside(m: &Movable, r: &Box4) -> (b: bool)
    ensures
        b == foot_inside(m.foot(), *r),
{
    m.x >= r.0 && m.x as i64 + m.w as i64 <= r.2 as i64 && m.y >= r.1 && m.y as i64 + m.h as i64 <= r.3 as i64
}

/// Whether the initial footprint lies across a box's left edge. This is no general overlap.
pub open spec fn crosses_left(m: Movable, r: Box4) -> bool {
    m.x + m.w > r.0 && m.x < r.0 && m.y + m.h > r.1 && m.y < r.3
}

/// Does the initial footprint lie across a box's left edge, overlapping it vertically?
pub fn check_overlap(m: &Movable, r: &Box4) -> (b: bool)
    ensures
        b == crosses_left(*m, *r),
{
    m.x as i64 + m.w as i64 > r.0 as i64 && m.x < r.0 && m.y as i64 + m.h as i64 > r.1 as i64 && m.y < r.3
}

/// How far an interval `[p, p + n]` sticks out of `[lo, hi]`, below or else above.
pub open spec fn sticks_out(p: int, n: int, lo: int, hi: int) -> int {
    if p < lo { lo - p } else if p + n > hi { p + n - hi } else { 0 }
}

/// How far the initial footprint sticks out of a box, along both axes.
pub open spec fn rect_distance(m: Movable, r: Box4) -> int {
    sticks_out(m.x as int, m.w as int, r.0 as int, r.2 as int) + sticks_out(m.y as int, m.h as int, r.1 as int, r.3 as int)
}

/// How far does the initial footprint stick out of a box?
pub fn dist_to_rect(m: &Movable, r: &Box4) -> (d: i64)
    ensures
        d == rect_distance(*m, *r),
{
    let (x, y, w, h) = (m.x as i64, m.y as i64, m.w as i64, m.h as i64);
    let dx: i64 = if x < r.0 as i64 { r.0 as i64 - x } else if x + w > r.2 as i64 { x + w - r.2 as i64 } else { 0 };
    let dy: i64 = if y < r.1 as i64 { r.1 as i64 - y } else if y + h > r.3 as i64 { y + h - r.3 as i64 } else { 0 };
    dx + dy
}

/// Where an interval of length `n` at `p` goes to leave `[lo, hi]`: how far it is from there, and
/// the place; past the upper end where that is nearer to its start than the lower end to its end.
pub open spec fn leave(p: int, n: int, lo: int, hi: int) -> (int, int) {
    if dist(p + n, lo) > dist(hi, p) { (dist(hi, p), hi) } else { (dist(p, lo), lo - n) }
}

/// Where an interval of length `n` at `p` goes to lie in `[lo, hi]`.
pub open spec fn draw_in(p: int, n: int, lo: int, hi: int) -> int {
    if p < lo { lo } else if p + n > hi { hi - n } else { p }
}

/// Where to start a cell's search with respect to a box: one across its left edge steps off it along
/// the axis where that is shorter, any other is drawn into it.
pub open spec fn nearest_point(m: Movable, r: Box4) -> (int, int) {
    let (x, y, w, h) = (m.x as int, m.y as int, m.w as int, m.h as int);
    if crosses_left(m, r) {
        let (dx, tx) = leave(x, w, r.0 as int, r.2 as int);
        let (dy, ty) = leave(y, h, r.1 as int, r.3 as int);
        if dx < dy { (tx, y) } else { (x, ty) }
    } else {
        (draw_in(x, w, r.0 as int, r.2 as int), draw_in(y, h, r.1 as int, r.3 as int))
    }
}

/// Stepping off or into a box stays within the coordinate type.
pub open spec fn steps_fit(m: Movable, r: Box4) -> bool {
    &&& i32::MIN <= r.0 - m.w <= i32::MAX
    &&& i32::MIN <= r.1 - m.h <= i32::MAX
    &&& i32::MIN <= r.2 - m.w <= i32::MAX
    &&& i32::MIN <= r.3 - m.h <= i32::MAX
}

fn leave_at(p: i64, n: i64, lo: i64, hi: i64) -> (r: (i64, i64))
    requires
        -0x8000_0000 <= p <= 0x7fff_ffff,
        -0x8000_0000 <= n <= 0x7fff_ffff,
        -0x8000_0000 <= lo <= 0x7fff_ffff,
        -0x8000_0000 <= hi <= 0x7fff_ffff,
    ensures
        (r.0 as int, r.1 as int) == leave(p as int, n as int, lo as int, hi as int),
{
    if distance(p + n, lo) > distance(hi, p) { (distance(hi, p), hi) } else { (distance(p, lo), lo - n) }
}

/// Where to start a cell's search with respect to a box.
pub fn nearest_pt(m: &Movable, r: &Box4) -> (p: (i32, i32))
    requires
        steps_fit(*m, *r),
    ensures
        (p.0 as int, p.1 as int) == nearest_point(*m, *r),
{
    let (x, y, w, h) = (m.x as i64, m.y as i64, m.w as i64, m.h as i64);
    if check_overlap(m, r) {
        let (dx, tx) = leave_at(x, w, r.0 as i64, r.2 as i64);
        let (dy, ty) = leave_at(y, h, r.1 as i64, r.3 as i64);
        return if dx < dy { (tx as i32, m.y) } else { (m.x, ty as i32) };
    }
    let tx: i64 = if x < r.0 as i64 { r.0 as i64 } else if x + w > r.2 as i64 { r.2 as i64 - w } else { x };
    let ty: i64 = if y < r.1 as i64 { r.1 as i64 } else if y + h > r.3 as i64 { r.3 as i64 - h } else { y };
    (tx as i32, ty as i32)
}

/// A cell drawn into a box that is large enough lies inside it.
pub proof fn law_drawn_in_lies_inside(m: Movable, r: Box4)
    requires
        !crosses_left(m, r),
        0 <= m.w <= r.2 - r.0,
        0 <= m.h <= r.3 - r.1,
    ensures
        ({
            let (x, y) = nearest_point(m, r);
            r.0 <= x && x + m.w <= r.2 && r.1 <= y && y + m.h <= r.3
        }),
{
}

/// A cell sticks out of a box by nothing exactly where it lies inside.
pub proof fn law_inside_is_no_distance(m: Movable, r: Box4)
    ensures
        foot_inside(m.foot(), r) <==> rect_distance(m, r) == 0,
{
}

// ── the legalizer ────────────────────────────────────────────────────────────────────────────

/// The diamond legalizer's state: the grid, the movable cells, and the groups.
pub struct Diamond {
    pub grid: Grid,
    pub out: Legalized,
    /// Every movable core cell, grouped or not.
    pub cells: Vec<Movable>,
    /// Each cell's group.
    pub group_of: Vec<Option<usize>>,
    pub placed: Vec<bool>,
    pub groups: Vec<Group>,
    pub regions: Regions,
}

/// The largest coordinates of cells and regions.
pub const PLACE_LIMIT: i32 = 0x2000_0000;

/// How many points a search visits at most.
pub const SEARCH_LIMIT: usize = 200000;

/// A cell whose numbers are in range.
pub open spec fn movable_ok(m: Movable) -> bool {
    &&& -PLACE_LIMIT <= m.x <= PLACE_LIMIT
    &&& -PLACE_LIMIT <= m.y <= PLACE_LIMIT
    &&& 0 <= m.w <= PLACE_LIMIT
    &&& 1 <= m.h <= PLACE_LIMIT
}

/// A region box whose numbers are in range.
pub open spec fn rect_ok(r: Box4) -> bool {
    &&& -PLACE_LIMIT <= r.0 <= PLACE_LIMIT
    &&& -PLACE_LIMIT <= r.1 <= PLACE_LIMIT
    &&& -PLACE_LIMIT <= r.2 <= PLACE_LIMIT
    &&& -PLACE_LIMIT <= r.3 <= PLACE_LIMIT
}

/// The last of the first `n` cells with a name.
pub open spec fn cell_named(cells: Seq<Movable>, name: Seq<char>, n: int) -> Option<int>
    decreases n,
{
    if n <= 0 {
        None
    } else if cells[n - 1].name@ == name {
        Some(n - 1)
    } else {
        cell_named(cells, name, n - 1)
    }
}

/// The last cell with a name.
fn index_of(cells: &Vec<Movable>, name: &str) -> (r: Option<usize>)
    ensures
        cell_named(cells@, name@, cells@.len() as int) == match r { Some(i) => Some(i as int), None => None },
        r matches Some(i) ==> i < cells@.len(),
{
    let mut n: usize = cells.len();
    while n > 0
        invariant
            n <= cells@.len(),
            cell_named(cells@, name@, n as int) == cell_named(cells@, name@, cells@.len() as int),
        decreases n,
    {
        if same_text(cells[n - 1].name.as_str(), name) {
            return Some(n - 1);
        }
        n = n - 1;
    }
    None
}

impl Diamond {
    /// The state's invariant.
    pub open spec fn wf(&self) -> bool {
        &&& self.grid.wf()
        &&& self.grid.row_site_count > 0
        &&& self.grid.row_site_count <= PLACE_LIMIT
        &&& self.grid.row_count <= PLACE_LIMIT
        &&& self.group_of@.len() == self.cells@.len()
        &&& self.placed@.len() == self.cells@.len()
        &&& forall|i: int| 0 <= i < self.cells@.len() ==> movable_ok(#[trigger] self.cells@[i])
        &&& forall|i: int| 0 <= i < self.cells@.len() ==> (#[trigger] self.group_of@[i] matches Some(g) ==> g < self.groups@.len())
        &&& forall|g: int, k: int| 0 <= g < self.groups@.len() && 0 <= k < self.groups@[g].rects@.len() ==> rect_ok(#[trigger] self.groups@[g].rects@[k])
        &&& forall|k: int| 0 <= k <= self.grid.row_count ==> i32::MIN <= #[trigger] self.grid.row_y@[k] + self.grid.core.1 <= i32::MAX
        &&& self.grid.row_site_count * self.grid.site_width + self.grid.core.0 <= i32::MAX
    }

    /// A cell's width in sites.
    pub open spec fn sites_wide(&self, i: int) -> int {
        trunc_quot(self.cells@[i].w + self.grid.site_width - 1, self.grid.site_width as int)
    }

    /// The group of a square, none off the grid.
    pub open spec fn square_group(&self, x: int, y: int) -> Option<usize> {
        if self.grid.inside(x, y) { self.grid.px(x, y).group } else { None }
    }

    /// Whether cell `i` may sit at a square: it respects the regions, every square is its own
    /// group's (or no group's), and the grid has room for it and offers its site.
    pub open spec fn can_sit(&self, i: int, px: int, py: int) -> bool {
        let m = self.cells@[i];
        let x_end = px + self.sites_wide(i);
        let y_end = self.grid.end_row(self.grid.boundary_y(py) + m.h);
        &&& self.groups@.len() > 0 ==> {
            &&& self.regions.overlap_allowed(m.name@, px, py, x_end, y_end, self.grid.site_width as int, self.grid.row_y@, self.grid.core.3 as int)
            &&& forall|x: int, y: int| px <= x < x_end && py <= y < y_end ==> #[trigger] self.square_group(x, y) == self.group_of@[i]
        }
        &&& self.grid.fits(px, py, self.sites_wide(i), m.h as int, m.site@)
    }

    /// The walk of cell `i`'s search from a square: as far as a cell may move, within its group's
    /// bounding box, on the grid; distances in DBU.
    pub open spec fn spread(&self, i: int, gx: int, gy: int) -> Spread {
        let (x0, y0, x1, y1) = (gx - 500, gy - 100, gx + 500, gy + 100);
        let (cx0, cy0, cx1, cy1) = match self.group_of@[i] {
            Some(g) => if self.groups@[g as int].rects@.len() == 0 {
                (x0, y0, x1, y1)
            } else {
                let w = within(self.grid, merged(self.groups@[g as int].rects@, self.groups@[g as int].rects@.len() as int));
                (
                    imin(imax(x0, w.0), w.2), imin(imax(y0, w.1), w.3),
                    imin(imax(x1, w.0), w.2), imin(imax(y1, w.1), w.3),
                )
            },
            None => (x0, y0, x1, y1),
        };
        Spread {
            cx: gx,
            cy: gy,
            bounds: (imax(cx0, 0), imax(cy0, 0), imin(cx1, self.grid.row_site_count - 1), imin(cy1, self.grid.row_count - 1)),
            far: |x: int, y: int| dist(gx, x) * self.grid.site_width + dist(self.grid.boundary_y(gy), self.grid.boundary_y(y)),
        }
    }

    /// Whether `r` is what cell `i`'s search from a square finds: the first point of its walk where
    /// it can sit, or nothing once the walk has ended without one.
    pub open spec fn finds(&self, i: int, gx: int, gy: int, r: Option<(int, int)>) -> bool {
        let s = self.spread(i, gx, gy);
        exists|n: nat| {
            let out = (#[trigger] s.after(n)).out;
            &&& out.len() == n
            &&& n <= SEARCH_LIMIT
            &&& match r {
                Some(p) => {
                    &&& n > 0
                    &&& out[n - 1] == p
                    &&& self.can_sit(i, p.0, p.1)
                    &&& forall|k: int| 0 <= k < n - 1 ==> !self.can_sit(i, (#[trigger] out[k]).0, out[k].1)
                },
                None => {
                    &&& n == SEARCH_LIMIT || s.after(n).heap.len() == 0
                    &&& forall|k: int| 0 <= k < n ==> !self.can_sit(i, (#[trigger] out[k]).0, out[k].1)
                },
            }
        }
    }

    /// Everything but the grid, the placements and the failures.
    pub open spec fn same_setting(&self, o: Diamond) -> bool {
        &&& self.cells == o.cells
        &&& self.group_of == o.group_of
        &&& self.groups == o.groups
        &&& self.regions == o.regions
        &&& self.out.not_done == o.out.not_done
        &&& self.out.filtered_out == o.out.filtered_out
        &&& self.grid.same_frame(o.grid)
    }

    /// `self` is `o` with cell `i` placed at a square: its squares painted, and written back with the
    /// orientation of its row.
    pub open spec fn seats(&self, o: Diamond, i: int, px: int, py: int) -> bool {
        let m = o.cells@[i];
        let nx = px * o.grid.site_width;
        let ny = o.grid.row_y@[py] as int;
        &&& self.same_setting(o)
        &&& self.grid.is_stamped(o.grid, o.grid.cover(nx, ny, m.w as int, m.h as int), Stamp::Occupy(None))
        &&& self.placed@ == o.placed@.update(i, true)
        &&& self.out.failures == o.out.failures
        &&& self.out.placed@ == o.out.placed@.push(Placed {
            name: m.name,
            x: (nx + o.grid.core.0) as i32,
            y: (ny + o.grid.core.1) as i32,
            orient: Some(o.grid.row_orient@[py]),
            moved: nx != m.x || ny != m.y,
            init_grid: None,
            footprint: None,
        })
    }

    /// Whether a move of cell `i` from a square leads from `o` to `self`, with success `ok`.
    pub open spec fn moves(&self, o: Diamond, i: int, gx: int, gy: int, ok: bool) -> bool {
        exists|r: Option<(int, int)>| {
            &&& #[trigger] o.finds(i, gx, gy, r)
            &&& ok == (r is Some)
            &&& match r {
                Some(p) => self.seats(o, i, p.0, p.1),
                None => *self == o,
            }
        }
    }

    /// May cell `i` sit at this square?
    pub fn can_be_placed(&self, i: usize, px: i64, py: i64) -> (r: bool)
        requires
            self.wf(),
            i < self.cells@.len(),
            -0x4000_0000 <= px <= 0x4000_0000,
            -0x4000_0000 <= py <= 0x4000_0000,
        ensures
            r == self.can_sit(i as int, px as int, py as int),
    {
        let m = &self.cells[i];
        let g = &self.grid;
        assert(movable_ok(self.cells@[i as int]));
        let cells_wide: i64 = (m.w as i64 + g.site_width as i64 - 1) / g.site_width as i64;
        proof {
            crate::arith::lemma_quot_bound(m.w + g.site_width - 1, g.site_width as int);
            assert(cells_wide <= m.w + 1) by (nonlinear_arith)
                requires cells_wide * g.site_width <= m.w + g.site_width - 1, g.site_width >= 1, cells_wide >= 0, m.w >= 0;
        }
        if self.groups.len() > 0 {
            let x_end: i64 = px + cells_wide;
            let y_end: i64 = g.grid_end_y(py, m.h);
            if !self.regions.overlap_ok(m.name.as_str(), px as i32, py as i32, x_end as i32, y_end as i32, g.site_width, g.row_y.as_slice(), g.core.3) {
                return false;
            }
            let mut y: i64 = py;
            while y < y_end
                invariant
                    self.wf(),
                    g == &self.grid,
                    i < self.cells@.len(),
                    self.groups@.len() > 0,
                    py <= y,
                    y <= y_end || y == py,
                    x_end == px + self.sites_wide(i as int),
                    y_end == self.grid.end_row(self.grid.boundary_y(py as int) + self.cells@[i as int].h),
                    forall|a: int, b: int| px <= a < x_end && py <= b < y ==> #[trigger] self.square_group(a, b) == self.group_of@[i as int],
                decreases y_end - y,
            {
                let mut x: i64 = px;
                while x < x_end
                    invariant
                        self.wf(),
                        g == &self.grid,
                        i < self.cells@.len(),
                        self.groups@.len() > 0,
                        py <= y < y_end,
                        px <= x,
                        x <= x_end || x == px,
                        x_end == px + self.sites_wide(i as int),
                        y_end == self.grid.end_row(self.grid.boundary_y(py as int) + self.cells@[i as int].h),
                        forall|a: int| px <= a < x ==> #[trigger] self.square_group(a, y as int) == self.group_of@[i as int],
                    decreases x_end - x,
                {
                    let here: Option<usize> = match g.pixel(x, y) {
                        Some(p) => p.group,
                        None => None,
                    };
                    assert(here == self.square_group(x as int, y as int));
                    if here != self.group_of[i] {
                        assert(!self.can_sit(i as int, px as int, py as int));
                        return false;
                    }
                    x = x + 1;
                }
                y = y + 1;
            }
        }
        g.can_place(px, py, cells_wide, m.h, m.site.as_str())
    }
}

impl Diamond {
    /// The distance of two squares in DBU.
    fn square_distance(grid: &Grid, a: (i64, i64), b: (i64, i64)) -> (r: i64)
        requires
            grid.wf(),
            -0x4000_0000 <= a.0 <= 0x4000_0000,
            -0x4000_0000 <= b.0 <= 0x4000_0000,
        ensures
            r == dist(a.0 as int, b.0 as int) * grid.site_width + dist(grid.boundary_y(a.1 as int), grid.boundary_y(b.1 as int)),
    {
        let ka: i64 = max64(a.1, 0);
        let kb: i64 = max64(b.1, 0);
        let ya: i64 = if ka > grid.row_count as i64 { 0 } else { grid.row_y[ka as usize] as i64 };
        let yb: i64 = if kb > grid.row_count as i64 { 0 } else { grid.row_y[kb as usize] as i64 };
        let dx: i64 = distance(a.0, b.0);
        proof {
            assert(0 <= dx * grid.site_width <= 0x8000_0000 * 0x7fff_ffff) by (nonlinear_arith)
                requires 0 <= dx <= 0x8000_0000, 0 < grid.site_width <= 0x7fff_ffff;
        }
        dx * grid.site_width as i64 + distance(ya, yb)
    }

    /// The bounds of cell `i`'s search from a square.
    fn search_bounds(&self, i: usize, gx: i64, gy: i64) -> (r: (i64, i64, i64, i64))
        requires
            self.wf(),
            i < self.cells@.len(),
            0 <= gx <= PLACE_LIMIT,
            0 <= gy <= PLACE_LIMIT,
        ensures
            (r.0 as int, r.1 as int, r.2 as int, r.3 as int) == self.spread(i as int, gx as int, gy as int).bounds,
            0 <= r.0 <= 0x1_0000_0000,
            0 <= r.1 <= 0x1_0000_0000,
            -0x1_0000_0000 <= r.2 < self.grid.row_site_count,
            -0x1_0000_0000 <= r.3 < self.grid.row_count,
    {
        let mut x_min: i64 = gx - 500;
        let mut y_min: i64 = gy - 100;
        let mut x_max: i64 = gx + 500;
        let mut y_max: i64 = gy + 100;
        assert(self.group_of@[i as int] matches Some(g) ==> g < self.groups@.len());
        if let Some(g) = self.group_of[i] {
            if let Some(bb) = self.groups[g].bbox() {
                let (wx0, wy0, wx1, wy1) = grid_within(&self.grid, &bb);
                x_min = min64(max64(x_min, wx0), wx1);
                y_min = min64(max64(y_min, wy0), wy1);
                x_max = min64(max64(x_max, wx0), wx1);
                y_max = min64(max64(y_max, wy0), wy1);
            }
        }
        (max64(x_min, 0), max64(y_min, 0), min64(x_max, self.grid.row_site_count as i64 - 1), min64(y_max, self.grid.row_count as i64 - 1))
    }

    /// Search from a square for the nearest one where cell `i` can sit.
    pub fn diamond_search(&self, i: usize, start: (i64, i64)) -> (r: Option<(i64, i64)>)
        requires
            self.wf(),
            i < self.cells@.len(),
            0 <= start.0 <= PLACE_LIMIT,
            0 <= start.1 <= PLACE_LIMIT,
        ensures
            self.finds(i as int, start.0 as int, start.1 as int, match r { Some(p) => Some((p.0 as int, p.1 as int)), None => None }),
            r matches Some(p) ==> self.can_sit(i as int, p.0 as int, p.1 as int) && 0 <= p.0 < self.grid.row_site_count && 0 <= p.1 < self.grid.row_count,
    {
        let (gx, gy) = start;
        let bounds = self.search_bounds(i, gx, gy);
        let ghost s = self.spread(i as int, gx as int, gy as int);
        let grid = &self.grid;
        let far = |a: (i64, i64), b: (i64, i64)| -> (d: i64)
            requires
                grid.wf(),
                -0x4000_0000 <= a.0 <= 0x4000_0000,
                -0x4000_0000 <= b.0 <= 0x4000_0000,
            ensures
                d == dist(a.0 as int, b.0 as int) * grid.site_width + dist(grid.boundary_y(a.1 as int), grid.boundary_y(b.1 as int)),
            { Diamond::square_distance(grid, a, b) };
        let mut walk = DiamondWalk::new(gx, gy, bounds);
        let mut n: usize = 0;
        proof {
            assert(agrees_far(far, s));
            assert(s.after(0) == s.start());
            assert(walk.stands(s, s.start()));
            assert(s.after(0).out =~= Seq::empty());
        }
        while n < SEARCH_LIMIT
            invariant
                self.wf(),
                i < self.cells@.len(),
                s == self.spread(i as int, gx as int, gy as int),
                (gx, gy) == start,
                0 <= gx <= PLACE_LIMIT,
                0 <= gy <= PLACE_LIMIT,
                n <= SEARCH_LIMIT,
                walk.wf(),
                callable(far, &walk),
                agrees_far(far, s),
                walk.stands(s, s.after(n as nat)),
                s.after(n as nat).out.len() == n,
                s.bounds.2 < self.grid.row_site_count,
                s.bounds.3 < self.grid.row_count,
                forall|k: int| 0 <= k < n ==> !self.can_sit(i as int, (#[trigger] s.after(n as nat).out[k]).0, s.after(n as nat).out[k].1),
            decreases SEARCH_LIMIT - n,
        {
            let ghost f0 = s.after(n as nat);
            let ghost w0 = walk;
            let got = walk.next(&far);
            proof {
                DiamondWalk::lemma_same_asks(far, &walk, &w0);
            }
            match got {
                None => {
                    assert(s.after(n as nat).heap.len() == 0);
                    assert(self.finds(i as int, gx as int, gy as int, None));
                    return None;
                },
                Some(p) => {
                    let ghost f1 = s.after((n + 1) as nat);
                    proof {
                        assert(f1 == s.visit(f0));
                        assert(f1.out == f0.out.push((p.0 as int, p.1 as int)));
                        crate::diamond::law_walk_visits_once(s, (n + 1) as nat);
                        assert(f1.out[n as int] == (p.0 as int, p.1 as int));
                    }
                    let ok: bool = self.can_be_placed(i, p.0, p.1);
                    if ok {
                        proof {
                            assert forall|k: int| 0 <= k < n implies !self.can_sit(i as int, (#[trigger] f1.out[k]).0, f1.out[k].1) by {
                                assert(f1.out[k] == f0.out[k]);
                            }
                            assert(s.after((n + 1) as nat).out.len() == n + 1);
                            assert(self.finds(i as int, gx as int, gy as int, Some((p.0 as int, p.1 as int))));
                        }
                        return Some(p);
                    }
                    assert forall|k: int| 0 <= k < n + 1 implies !self.can_sit(i as int, (#[trigger] f1.out[k]).0, f1.out[k].1) by {
                        if k < n {
                            assert(f1.out[k] == f0.out[k]);
                        }
                    }
                    n = n + 1;
                },
            }
        }
        assert(s.after(n as nat).out.len() == n);
        assert(self.finds(i as int, gx as int, gy as int, None));
        None
    }

    /// Place cell `i` at a square: paint it, note it, take the row's orientation.
    pub fn place_cell(&mut self, i: usize, px: i64, py: i64)
        requires
            old(self).wf(),
            i < old(self).cells@.len(),
            old(self).can_sit(i as int, px as int, py as int),
            0 <= px < old(self).grid.row_site_count,
            0 <= py < old(self).grid.row_count,
        ensures
            final(self).wf(),
            final(self).seats(*old(self), i as int, px as int, py as int),
    {
        let ghost d0 = *self;
        let core = self.grid.core;
        proof {
            assert(0 <= px * self.grid.site_width <= self.grid.row_site_count * self.grid.site_width) by (nonlinear_arith)
                requires 0 <= px <= self.grid.row_site_count, self.grid.site_width > 0;
            assert(i32::MIN <= self.grid.row_y@[py as int] + self.grid.core.1 <= i32::MAX);
        }
        let nx: i32 = (px * self.grid.site_width as i64) as i32;
        let ny: i32 = self.grid.row_y[py as usize];
        let (w, h) = (self.cells[i].w, self.cells[i].h);
        self.grid.paint(nx, ny, w, h, true);
        let orient = self.grid.site_orient_at(px, py, self.cells[i].site.as_str());
        let p = Placed {
            name: self.cells[i].name.clone(),
            x: nx + core.0,
            y: ny + core.1,
            orient,
            moved: nx != self.cells[i].x || ny != self.cells[i].y,
            init_grid: None,
            footprint: None,
        };
        self.out.placed.push(p);
        self.placed[i] = true;
    }

    /// Search for a place for cell `i` from a square, and place it there. `false` leaves all as it
    /// was.
    pub fn diamond_move(&mut self, i: usize, start: (i64, i64)) -> (ok: bool)
        requires
            old(self).wf(),
            i < old(self).cells@.len(),
            0 <= start.0 <= PLACE_LIMIT,
            0 <= start.1 <= PLACE_LIMIT,
        ensures
            final(self).wf(),
            final(self).moves(*old(self), i as int, start.0 as int, start.1 as int, ok),
            final(self).same_setting(*old(self)),
            final(self).out.failures == old(self).out.failures,
    {
        match self.diamond_search(i, start) {
            Some((px, py)) => {
                self.place_cell(i, px, py);
                proof {
                    assert(old(self).finds(i as int, start.0 as int, start.1 as int, Some((px as int, py as int))));
                }
                true
            },
            None => {
                proof {
                    assert(old(self).finds(i as int, start.0 as int, start.1 as int, None));
                }
                false
            },
        }
    }

    /// Where a cell of this size, wanted at `(x, y)`, starts its search.
    pub open spec fn start_at(&self, x: int, y: int, w: int, h: int) -> (int, int) {
        let g = self.grid;
        let cx = imin(imax(x, 0), imax(g.row_site_count * g.site_width - w, 0));
        let cy = imin(imax(y, 0), imax(g.core.3 - g.core.1 - h, 0));
        (
            imin(round_quot(cx, g.site_width as int), g.row_site_count - 1),
            nearest_ix(g.row_y@.subrange(0, imax(g.row_count as int, 1)), cy),
        )
    }

    /// A move of cell `i`, wanted at `(x, y)`, leads from `o` to `self`.
    pub open spec fn goes(&self, o: Diamond, i: int, x: int, y: int, ok: bool) -> bool {
        let m = o.cells@[i];
        let (gx, gy) = o.start_at(x, y, m.w as int, m.h as int);
        self.moves(o, i, gx, gy, ok)
    }

    /// Move cell `i` as near as possible to `(x, y)`.
    fn move_near(&mut self, i: usize, x: i32, y: i32) -> (ok: bool)
        requires
            old(self).wf(),
            i < old(self).cells@.len(),
        ensures
            final(self).wf(),
            final(self).goes(*old(self), i as int, x as int, y as int, ok),
            final(self).same_setting(*old(self)),
            final(self).out.failures == old(self).out.failures,
    {
        let start = self.grid.legal_start(x, y, self.cells[i].w, self.cells[i].h);
        self.diamond_move(i, start)
    }
}

// ── stages ───────────────────────────────────────────────────────────────────────────────────

/// A stage: `trace` leads from its first state to its last, one item after another, each step as
/// `step(after, before, item)` asks.
pub open spec fn chain<T>(step: spec_fn(Diamond, Diamond, T) -> bool, trace: Seq<Diamond>, items: Seq<T>) -> bool {
    &&& trace.len() == items.len() + 1
    &&& forall|k: int| 0 <= k < items.len() ==> step(trace[k + 1], trace[k], #[trigger] items[k])
}

/// Whether a stage leads from `a` to `b`.
pub open spec fn stage<T>(step: spec_fn(Diamond, Diamond, T) -> bool, a: Diamond, b: Diamond, items: Seq<T>) -> bool {
    exists|trace: Seq<Diamond>| #[trigger] chain(step, trace, items) && trace[0] == a && trace.last() == b
}

/// One more step of a stage.
proof fn lemma_chain_push<T>(step: spec_fn(Diamond, Diamond, T) -> bool, trace: Seq<Diamond>, items: Seq<T>, d: Diamond, t: T)
    requires
        chain(step, trace, items),
        step(d, trace.last(), t),
    ensures
        chain(step, trace.push(d), items.push(t)),
{
    let tr = trace.push(d);
    let it = items.push(t);
    assert forall|k: int| 0 <= k < it.len() implies step(tr[k + 1], tr[k], #[trigger] it[k]) by {
        if k < items.len() {
            assert(it[k] == items[k]);
            assert(tr[k] == trace[k] && tr[k + 1] == trace[k + 1]);
        } else {
            assert(tr[k] == trace.last());
        }
    }
}

/// The placement keys of the cells.
pub open spec fn keys_of(cells: Seq<Movable>) -> Seq<OrderKey> {
    Seq::new(cells.len(), |i: int| cells[i].key)
}

/// The names of the cells.
pub open spec fn names_of(cells: Seq<Movable>) -> Seq<String> {
    Seq::new(cells.len(), |i: int| cells[i].name)
}

/// Whether `ix` lists the indices `from` in the order of placement.
pub open spec fn placement_order(cells: Seq<Movable>, from: Seq<usize>, ix: Seq<usize>) -> bool {
    exists|o: ByKey| o.keys@ == keys_of(cells) && #[trigger] ascending(o, ix) && ix.to_multiset() == from.to_multiset()
}

/// Indices into the cells in the order of placement.
pub fn sort_indices(idx: &Vec<usize>, cells: &Vec<Movable>) -> (r: Vec<usize>)
    requires
        forall|k: int| 0 <= k < idx@.len() ==> #[trigger] idx@[k] < cells@.len(),
    ensures
        placement_order(cells@, idx@, r@),
        r@.len() == idx@.len(),
        forall|k: int| 0 <= k < r@.len() ==> #[trigger] r@[k] < cells@.len(),
{
    let mut keys: Vec<OrderKey> = Vec::new();
    let mut k: usize = 0;
    while k < cells.len()
        invariant
            k <= cells@.len(),
            keys@ == keys_of(cells@).subrange(0, k as int),
        decreases cells@.len() - k,
    {
        keys.push(copy_key(&cells[k].key));
        k = k + 1;
        assert(keys@ =~= keys_of(cells@).subrange(0, k as int));
    }
    assert(keys@ =~= keys_of(cells@));
    let o = ByKey { keys: &keys };
    let r = sorted_in(&o, idx);
    proof {
        let below = |i: usize| i < cells@.len();
        crate::sort::lemma_rearranged(idx@, r@, below);
        assert(ascending(o, r@));
    }
    r
}

/// A step in which a cell is placed or fails.
pub open spec fn tried_step() -> spec_fn(Diamond, Diamond, usize) -> bool {
    |b: Diamond, a: Diamond, i: usize| b.tried(a, i)
}

impl Diamond {
    /// `self` is `o` with some failures added.
    pub open spec fn fails(&self, o: Diamond, names: Seq<Seq<char>>) -> bool {
        &&& self.same_setting(o)
        &&& self.grid == o.grid
        &&& self.placed == o.placed
        &&& self.out.placed == o.out.placed
        &&& texts(self.out.failures@) == texts(o.out.failures@) + names
    }

    /// The cells below `n` that are in no group and not placed.
    pub open spec fn waiting(&self, n: int) -> Seq<usize>
        decreases n,
    {
        if n <= 0 {
            Seq::empty()
        } else {
            let s = self.waiting(n - 1);
            if self.group_of@[n - 1] is None && !self.placed@[n - 1] { s.push((n - 1) as usize) } else { s }
        }
    }

    /// A cell is moved near where it started, or fails.
    pub open spec fn tried(&self, o: Diamond, i: usize) -> bool {
        let m = o.cells@[i as int];
        ||| self.goes(o, i as int, m.x as int, m.y as int, true)
        ||| o.goes(o, i as int, m.x as int, m.y as int, false) && self.fails(o, seq![m.name@])
    }

    /// Whether placing every waiting cell, in the order of placement, leads from `o` to `self`.
    pub open spec fn placed_all(&self, o: Diamond) -> bool {
        exists|ix: Seq<usize>| placement_order(o.cells@, o.waiting(o.cells@.len() as int), ix) && #[trigger] stage(tried_step(), o, *self, ix)
    }

    /// Place every cell that is in no group and not yet placed, in the order of placement, each as
    /// near as possible to where it started. A cell that finds no place is named.
    pub fn place(&mut self)
        requires
            old(self).wf(),
        ensures
            final(self).wf(),
            final(self).placed_all(*old(self)),
    {
        let ghost d0 = *self;
        let ghost step = tried_step();
        let mut idx: Vec<usize> = Vec::new();
        let mut i: usize = 0;
        while i < self.cells.len()
            invariant
                *self == d0,
                d0.wf(),
                i <= self.cells@.len(),
                idx@ == self.waiting(i as int),
                forall|k: int| 0 <= k < idx@.len() ==> #[trigger] idx@[k] < i,
            decreases self.cells@.len() - i,
        {
            if self.group_of[i].is_none() && !self.placed[i] {
                idx.push(i);
            }
            i = i + 1;
        }
        let order = sort_indices(&idx, &self.cells);
        let ghost mut trace: Seq<Diamond> = seq![d0];
        let mut k: usize = 0;
        assert(order@.subrange(0, 0) =~= Seq::empty());
        while k < order.len()
            invariant
                self.wf(),
                k <= order@.len(),
                self.cells@.len() == d0.cells@.len(),
                forall|j: int| 0 <= j < order@.len() ==> #[trigger] order@[j] < d0.cells@.len(),
                step == tried_step(),
                chain(step, trace, order@.subrange(0, k as int)),
                trace[0] == d0,
                trace.last() == *self,
            decreases order@.len() - k,
        {
            let ghost before = *self;
            let i: usize = order[k];
            let (x, y) = (self.cells[i].x, self.cells[i].y);
            let ok: bool = self.move_near(i, x, y);
            if !ok {
                let ghost mid = *self;
                assert(mid == before);
                self.out.failures.push(self.cells[i].name.clone());
                assert(texts(self.out.failures@) =~= texts(before.out.failures@) + seq![before.cells@[i as int].name@]);
            }
            proof {
                assert(self.tried(before, i));
                lemma_chain_push(step, trace, order@.subrange(0, k as int), *self, i);
                trace = trace.push(*self);
                assert(order@.subrange(0, k as int).push(i) =~= order@.subrange(0, k + 1));
            }
            k = k + 1;
        }
        assert(order@.subrange(0, k as int) =~= order@);
        assert(chain(step, trace, order@));
        assert(stage(step, d0, *self, order@));
    }
}

// ── groups ───────────────────────────────────────────────────────────────────────────────────

/// `k` is the first box a cell sticks out of least.
pub open spec fn is_nearest_rect(m: Movable, rects: Seq<Box4>, k: int) -> bool {
    &&& 0 <= k < rects.len()
    &&& forall|j: int| 0 <= j < rects.len() ==> rect_distance(m, rects[k]) <= rect_distance(m, #[trigger] rects[j])
    &&& forall|j: int| 0 <= j < k ==> rect_distance(m, rects[k]) < rect_distance(m, #[trigger] rects[j])
}

/// Whether some box holds a cell's initial footprint.
pub open spec fn inside_some(m: Movable, rects: Seq<Box4>) -> bool {
    exists|k: int| 0 <= k < rects.len() && foot_inside(m.foot(), #[trigger] rects[k])
}

/// The movable cells of a group's first `n` instances, with the group.
pub open spec fn visits_of(g: Group, gi: usize, cells: Seq<Movable>, n: int) -> Seq<(usize, usize)>
    decreases n,
{
    if n <= 0 {
        Seq::empty()
    } else {
        let s = visits_of(g, gi, cells, n - 1);
        match cell_named(cells, g.cells@[n - 1]@, cells.len() as int) {
            Some(i) => s.push((gi, i as usize)),
            None => s,
        }
    }
}

/// The movable cells of the first `n` groups, group by group.
pub open spec fn visits(groups: Seq<Group>, cells: Seq<Movable>, n: int) -> Seq<(usize, usize)>
    decreases n,
{
    if n <= 0 {
        Seq::empty()
    } else {
        visits(groups, cells, n - 1) + visits_of(groups[n - 1], (n - 1) as usize, cells, groups[n - 1].cells@.len() as int)
    }
}

/// The last of the first `n` boxes whose left edge a cell crosses, else `other`.
pub open spec fn crossed_in(m: Movable, rects: Seq<Box4>, n: int, other: Option<Box4>) -> Option<Box4>
    decreases n,
{
    if n <= 0 {
        other
    } else if crosses_left(m, rects[n - 1]) {
        Some(rects[n - 1])
    } else {
        crossed_in(m, rects, n - 1, other)
    }
}

/// The last box of the first `n` groups whose left edge a cell crosses.
pub open spec fn crossed(m: Movable, groups: Seq<Group>, n: int) -> Option<Box4>
    decreases n,
{
    if n <= 0 {
        None
    } else {
        crossed_in(m, groups[n - 1].rects@, groups[n - 1].rects@.len() as int, crossed(m, groups, n - 1))
    }
}

impl Diamond {
    /// A grouped cell that starts outside its group's boxes is moved toward the nearest one.
    pub open spec fn drawn(&self, o: Diamond, v: (usize, usize)) -> bool {
        let m = o.cells@[v.1 as int];
        let rects = o.groups@[v.0 as int].rects@;
        if o.placed@[v.1 as int] || rects.len() == 0 || inside_some(m, rects) {
            *self == o
        } else {
            exists|k: int, ok: bool| is_nearest_rect(m, rects, k)
                && #[trigger] self.goes(o, v.1 as int, nearest_point(m, rects[k]).0, nearest_point(m, rects[k]).1, ok)
        }
    }

    /// An ungrouped cell that crosses a region's left edge is moved off the last such region.
    pub open spec fn cleared(&self, o: Diamond, i: usize) -> bool {
        let m = o.cells@[i as int];
        if o.group_of@[i as int] is Some || o.placed@[i as int] {
            *self == o
        } else {
            match crossed(m, o.groups@, o.groups@.len() as int) {
                None => *self == o,
                Some(r) => {
                    let (x, y) = nearest_point(m, r);
                    exists|ok: bool| #[trigger] self.goes(o, i as int, x, y, ok)
                },
            }
        }
    }
}

/// A step in which a grouped cell is drawn toward its group.
pub open spec fn drawn_step() -> spec_fn(Diamond, Diamond, (usize, usize)) -> bool {
    |b: Diamond, a: Diamond, v: (usize, usize)| b.drawn(a, v)
}

/// A step in which an ungrouped cell clears a region.
pub open spec fn cleared_step() -> spec_fn(Diamond, Diamond, usize) -> bool {
    |b: Diamond, a: Diamond, i: usize| b.cleared(a, i)
}

/// Whether `ix` lists all cells in the order of their names.
pub open spec fn by_name(cells: Seq<Movable>, ix: Seq<usize>) -> bool {
    exists|o: ByName| #[trigger] crate::network::name_order(names_of(cells), o, ix)
}

/// The box nearest to a cell, the first of equally near ones.
fn nearest_rect(m: &Movable, rects: &Vec<Box4>) -> (r: usize)
    requires
        rects@.len() > 0,
    ensures
        is_nearest_rect(*m, rects@, r as int),
{
    let mut best: usize = 0;
    let mut k: usize = 1;
    while k < rects.len()
        invariant
            1 <= k <= rects@.len(),
            best < k,
            forall|j: int| 0 <= j < k ==> rect_distance(*m, rects@[best as int]) <= rect_distance(*m, #[trigger] rects@[j]),
            forall|j: int| 0 <= j < best ==> rect_distance(*m, rects@[best as int]) < rect_distance(*m, #[trigger] rects@[j]),
        decreases rects@.len() - k,
    {
        if dist_to_rect(m, &rects[k]) < dist_to_rect(m, &rects[best]) {
            best = k;
        }
        k = k + 1;
    }
    best
}

/// Does some box hold a cell's initial footprint?
fn any_inside(m: &Movable, rects: &Vec<Box4>) -> (r: bool)
    ensures
        r == inside_some(*m, rects@),
{
    let mut k: usize = 0;
    while k < rects.len()
        invariant
            k <= rects@.len(),
            forall|j: int| 0 <= j < k ==> !foot_inside(m.foot(), #[trigger] rects@[j]),
        decreases rects@.len() - k,
    {
        if is_inside(m, &rects[k]) {
            return true;
        }
        k = k + 1;
    }
    false
}

/// The last region box whose left edge a cell crosses.
fn last_crossed(m: &Movable, groups: &Vec<Group>) -> (r: Option<Box4>)
    ensures
        r == crossed(*m, groups@, groups@.len() as int),
        r matches Some(b) ==> exists|g: int, k: int| 0 <= g < groups@.len() && 0 <= k < groups@[g].rects@.len() && #[trigger] groups@[g].rects@[k] == b,
{
    let mut found: Option<Box4> = None;
    let mut g: usize = 0;
    while g < groups.len()
        invariant
            g <= groups@.len(),
            found == crossed(*m, groups@, g as int),
            found matches Some(b) ==> exists|a: int, k: int| 0 <= a < g && 0 <= k < groups@[a].rects@.len() && #[trigger] groups@[a].rects@[k] == b,
        decreases groups@.len() - g,
    {
        let rects = &groups[g].rects;
        let ghost before = found;
        let mut k: usize = 0;
        while k < rects.len()
            invariant
                g < groups@.len(),
                rects == &groups@[g as int].rects,
                k <= rects@.len(),
                found == crossed_in(*m, rects@, k as int, before),
                before == crossed(*m, groups@, g as int),
                found matches Some(b) ==> exists|a: int, q: int| 0 <= a <= g && 0 <= q < groups@[a].rects@.len() && #[trigger] groups@[a].rects@[q] == b,
            decreases rects@.len() - k,
        {
            if check_overlap(m, &rects[k]) {
                found = Some(rects[k]);
                assert(groups@[g as int].rects@[k as int] == rects@[k as int]);
            }
            k = k + 1;
        }
        g = g + 1;
    }
    found
}

impl Diamond {
    /// Steps off and into boxes stay in range.
    proof fn lemma_steps_fit(&self, i: int, r: Box4)
        requires
            self.wf(),
            0 <= i < self.cells@.len(),
            rect_ok(r),
        ensures
            steps_fit(self.cells@[i], r),
    {
        assert(movable_ok(self.cells@[i]));
    }

    /// Move every grouped cell that starts outside its group's boxes toward the nearest of them.
    pub fn pre_place_groups(&mut self)
        requires
            old(self).wf(),
        ensures
            final(self).wf(),
            final(self).same_setting(*old(self)),
            stage(drawn_step(), *old(self), *final(self), visits(old(self).groups@, old(self).cells@, old(self).groups@.len() as int)),
    {
        let ghost d0 = *self;
        let ghost mut trace: Seq<Diamond> = seq![d0];
        let ghost mut items: Seq<(usize, usize)> = Seq::empty();
        let groups: usize = self.groups.len();
        let mut gi: usize = 0;
        while gi < groups
            invariant
                self.wf(),
                d0.wf(),
                self.same_setting(d0),
                groups == d0.groups@.len(),
                gi <= groups,
                chain(drawn_step(), trace, items),
                items == visits(d0.groups@, d0.cells@, gi as int),
                trace[0] == d0,
                trace.last() == *self,
            decreases groups - gi,
        {
            let ghost items0 = items;
            let members: usize = self.groups[gi].cells.len();
            let mut c: usize = 0;
            assert(items0 + visits_of(d0.groups@[gi as int], gi, d0.cells@, 0) =~= items);
            while c < members
                invariant
                    self.wf(),
                    d0.wf(),
                    self.same_setting(d0),
                    groups == d0.groups@.len(),
                    gi < groups,
                    members == d0.groups@[gi as int].cells@.len(),
                    c <= members,
                    chain(drawn_step(), trace, items),
                    items == items0 + visits_of(d0.groups@[gi as int], gi, d0.cells@, c as int),
                    trace[0] == d0,
                    trace.last() == *self,
                decreases members - c,
            {
                let ghost before = *self;
                let found = index_of(&self.cells, self.groups[gi].cells[c].as_str());
                if let Some(i) = found {
                    if !self.placed[i] && self.groups[gi].rects.len() > 0 && !any_inside(&self.cells[i], &self.groups[gi].rects) {
                        let k: usize = nearest_rect(&self.cells[i], &self.groups[gi].rects);
                        let r: Box4 = self.groups[gi].rects[k];
                        proof {
                            assert(rect_ok(self.groups@[gi as int].rects@[k as int]));
                            self.lemma_steps_fit(i as int, r);
                        }
                        let (nx, ny) = nearest_pt(&self.cells[i], &r);
                        let ok: bool = self.move_near(i, nx, ny);
                        proof {
                            let m = before.cells@[i as int];
                            let rects = before.groups@[gi as int].rects@;
                            assert(self.goes(before, i as int, nearest_point(m, rects[k as int]).0, nearest_point(m, rects[k as int]).1, ok));
                        }
                    }
                    proof {
                        assert(self.drawn(before, (gi, i)));
                        lemma_chain_push(drawn_step(), trace, items, *self, (gi, i));
                        trace = trace.push(*self);
                        items = items.push((gi, i));
                    }
                }
                assert(items =~= items0 + visits_of(d0.groups@[gi as int], gi, d0.cells@, c + 1));
                c = c + 1;
            }
            gi = gi + 1;
        }
        assert(chain(drawn_step(), trace, items));
    }

    /// Move every ungrouped cell that crosses a region's left edge off it, by name.
    pub fn pre_place(&mut self)
        requires
            old(self).wf(),
        ensures
            final(self).wf(),
            final(self).same_setting(*old(self)),
            exists|ix: Seq<usize>| by_name(old(self).cells@, ix) && #[trigger] stage(cleared_step(), *old(self), *final(self), ix),
    {
        let ghost d0 = *self;
        let mut names: Vec<String> = Vec::new();
        let mut all: Vec<usize> = Vec::new();
        let n: usize = self.cells.len();
        let mut k: usize = 0;
        while k < n
            invariant
                *self == d0,
                n == d0.cells@.len(),
                k <= n,
                names@ == names_of(d0.cells@).subrange(0, k as int),
                all@ == crate::network::numbers(n as nat).subrange(0, k as int),
            decreases n - k,
        {
            names.push(self.cells[k].name.clone());
            all.push(k);
            k = k + 1;
            assert(names@ =~= names_of(d0.cells@).subrange(0, k as int));
            assert(all@ =~= crate::network::numbers(n as nat).subrange(0, k as int));
        }
        assert(names@ =~= names_of(d0.cells@));
        assert(all@ =~= crate::network::numbers(n as nat));
        let o = ByName { names: &names };
        let order = sorted_in(&o, &all);
        proof {
            let below = |i: usize| i < n;
            crate::sort::lemma_rearranged(all@, order@, below);
            assert(crate::network::name_order(names_of(d0.cells@), o, order@));
        }
        let ghost mut trace: Seq<Diamond> = seq![d0];
        assert(order@.subrange(0, 0) =~= Seq::empty());
        k = 0;
        while k < order.len()
            invariant
                self.wf(),
                d0.wf(),
                self.same_setting(d0),
                n == d0.cells@.len(),
                k <= order@.len(),
                forall|j: int| 0 <= j < order@.len() ==> #[trigger] order@[j] < n,
                chain(cleared_step(), trace, order@.subrange(0, k as int)),
                trace[0] == d0,
                trace.last() == *self,
            decreases order@.len() - k,
        {
            let ghost before = *self;
            let i: usize = order[k];
            if self.group_of[i].is_none() && !self.placed[i] {
                let r = last_crossed(&self.cells[i], &self.groups);
                if let Some(b) = r {
                    proof {
                        let (g, q) = choose|g: int, q: int| 0 <= g < self.groups@.len() && 0 <= q < self.groups@[g].rects@.len() && #[trigger] self.groups@[g].rects@[q] == b;
                        assert(rect_ok(self.groups@[g].rects@[q]));
                        self.lemma_steps_fit(i as int, b);
                    }
                    let (nx, ny) = nearest_pt(&self.cells[i], &b);
                    let ok: bool = self.move_near(i, nx, ny);
                    assert(self.goes(before, i as int, nx as int, ny as int, ok));
                }
            }
            proof {
                assert(self.cleared(before, i));
                lemma_chain_push(cleared_step(), trace, order@.subrange(0, k as int), *self, i);
                trace = trace.push(*self);
                assert(order@.subrange(0, k as int).push(i) =~= order@.subrange(0, k + 1));
            }
            k = k + 1;
        }
        assert(order@.subrange(0, k as int) =~= order@);
        assert(chain(cleared_step(), trace, order@));
        assert(stage(cleared_step(), d0, *self, order@));
    }
}

impl Diamond {
    /// The cells of a group's first `n` instances that are not placed.
    pub open spec fn unplaced_members(&self, g: int, n: int) -> Seq<usize>
        decreases n,
    {
        if n <= 0 {
            Seq::empty()
        } else {
            let s = self.unplaced_members(g, n - 1);
            match cell_named(self.cells@, self.groups@[g].cells@[n - 1]@, self.cells@.len() as int) {
                Some(i) => if self.placed@[i] { s } else { s.push(i as usize) },
                None => s,
            }
        }
    }

    /// The names of a group's first `n` instances that are cells and not placed.
    pub open spec fn unplaced_names(&self, g: int, n: int) -> Seq<Seq<char>>
        decreases n,
    {
        if n <= 0 {
            Seq::empty()
        } else {
            let s = self.unplaced_names(g, n - 1);
            match cell_named(self.cells@, self.groups@[g].cells@[n - 1]@, self.cells@.len() as int) {
                Some(i) => if self.placed@[i] { s } else { s.push(self.groups@[g].cells@[n - 1]@) },
                None => s,
            }
        }
    }

    /// A cell is placed near where it started, unless it is placed already.
    pub open spec fn settled(&self, o: Diamond, i: usize) -> bool {
        let m = o.cells@[i as int];
        if o.placed@[i as int] { *self == o } else { self.goes(o, i as int, m.x as int, m.y as int, true) }
    }

    /// A group's unplaced cells are placed in the order `ix`, the first `m` of them with success; if
    /// one then finds no place, every cell of the group that is not placed fails.
    pub open spec fn group_done(&self, o: Diamond, g: int, ix: Seq<usize>, m: int, mid: Diamond) -> bool {
        &&& placement_order(o.cells@, o.unplaced_members(g, o.groups@[g].cells@.len() as int), ix)
        &&& 0 <= m <= ix.len()
        &&& stage(settled_step(), o, mid, ix.subrange(0, m))
        &&& if m == ix.len() {
            *self == mid
        } else {
            let i = ix[m] as int;
            let c = mid.cells@[i];
            &&& !mid.placed@[i]
            &&& mid.goes(mid, i, c.x as int, c.y as int, false)
            &&& self.fails(mid, mid.unplaced_names(g, mid.groups@[g].cells@.len() as int))
        }
    }

    /// One group's turn.
    pub open spec fn group_turn(&self, o: Diamond, g: int) -> bool {
        exists|ix: Seq<usize>, m: int, mid: Diamond| #[trigger] self.group_done(o, g, ix, m, mid)
    }
}

/// A step in which a cell of a group is placed.
pub open spec fn settled_step() -> spec_fn(Diamond, Diamond, usize) -> bool {
    |b: Diamond, a: Diamond, i: usize| b.settled(a, i)
}

/// A step in which a group has its turn.
pub open spec fn group_step() -> spec_fn(Diamond, Diamond, int) -> bool {
    |b: Diamond, a: Diamond, g: int| b.group_turn(a, g)
}

/// The numbers below `n`.
pub open spec fn first_numbers(n: int) -> Seq<int> {
    Seq::new(n as nat, |k: int| k)
}

impl Diamond {
    /// The unplaced cells of a group.
    fn group_waiting(&self, gi: usize) -> (idx: Vec<usize>)
        requires
            self.wf(),
            gi < self.groups@.len(),
        ensures
            idx@ == self.unplaced_members(gi as int, self.groups@[gi as int].cells@.len() as int),
            forall|k: int| 0 <= k < idx@.len() ==> #[trigger] idx@[k] < self.cells@.len(),
    {
        let mut idx: Vec<usize> = Vec::new();
        let members = &self.groups[gi].cells;
        let mut c: usize = 0;
        while c < members.len()
            invariant
                self.wf(),
                gi < self.groups@.len(),
                members == &self.groups@[gi as int].cells,
                c <= members@.len(),
                idx@ == self.unplaced_members(gi as int, c as int),
                forall|k: int| 0 <= k < idx@.len() ==> #[trigger] idx@[k] < self.cells@.len(),
            decreases members@.len() - c,
        {
            if let Some(i) = index_of(&self.cells, members[c].as_str()) {
                if !self.placed[i] {
                    idx.push(i);
                }
            }
            c = c + 1;
        }
        idx
    }

    /// Name every cell of a group that is not placed.
    fn fail_group(&mut self, gi: usize)
        requires
            old(self).wf(),
            gi < old(self).groups@.len(),
        ensures
            final(self).wf(),
            final(self).fails(*old(self), old(self).unplaced_names(gi as int, old(self).groups@[gi as int].cells@.len() as int)),
    {
        let ghost d0 = *self;
        let members: usize = self.groups[gi].cells.len();
        let mut c: usize = 0;
        assert(texts(self.out.failures@) =~= texts(d0.out.failures@) + d0.unplaced_names(gi as int, 0));
        while c < members
            invariant
                self.wf(),
                d0.wf(),
                gi < d0.groups@.len(),
                self.same_setting(d0),
                self.grid == d0.grid,
                self.placed == d0.placed,
                self.out.placed == d0.out.placed,
                members == d0.groups@[gi as int].cells@.len(),
                c <= members,
                texts(self.out.failures@) == texts(d0.out.failures@) + d0.unplaced_names(gi as int, c as int),
            decreases members - c,
        {
            let ghost f0 = self.out.failures@;
            if let Some(i) = index_of(&self.cells, self.groups[gi].cells[c].as_str()) {
                if !self.placed[i] {
                    self.out.failures.push(self.groups[gi].cells[c].clone());
                    assert(texts(self.out.failures@) =~= texts(f0).push(d0.groups@[gi as int].cells@[c as int]@));
                }
            }
            assert(texts(self.out.failures@) =~= texts(d0.out.failures@) + d0.unplaced_names(gi as int, c + 1));
            c = c + 1;
        }
    }

    /// Place one group's cells, in the order of placement; the first that finds no place ends the
    /// group, and its unplaced cells are named.
    fn place_group(&mut self, gi: usize)
        requires
            old(self).wf(),
            gi < old(self).groups@.len(),
        ensures
            final(self).wf(),
            final(self).same_setting(*old(self)),
            final(self).group_turn(*old(self), gi as int),
    {
        let ghost d0 = *self;
        let idx = self.group_waiting(gi);
        let order = sort_indices(&idx, &self.cells);
        let ghost mut trace: Seq<Diamond> = seq![d0];
        let mut k: usize = 0;
        assert(order@.subrange(0, 0) =~= Seq::empty());
        while k < order.len()
            invariant
                self.wf(),
                d0.wf(),
                self.same_setting(d0),
                gi < d0.groups@.len(),
                placement_order(d0.cells@, d0.unplaced_members(gi as int, d0.groups@[gi as int].cells@.len() as int), order@),
                k <= order@.len(),
                forall|j: int| 0 <= j < order@.len() ==> #[trigger] order@[j] < d0.cells@.len(),
                chain(settled_step(), trace, order@.subrange(0, k as int)),
                trace[0] == d0,
                trace.last() == *self,
                d0 == *old(self),
            decreases order@.len() - k,
        {
            let ghost before = *self;
            let i: usize = order[k];
            if !self.placed[i] {
                let (x, y) = (self.cells[i].x, self.cells[i].y);
                let ok: bool = self.move_near(i, x, y);
                if !ok {
                    assert(*self == before);
                    assert(stage(settled_step(), d0, before, order@.subrange(0, k as int)));
                    self.fail_group(gi);
                    assert(self.group_done(d0, gi as int, order@, k as int, before));
                    return;
                }
            }
            proof {
                assert(self.settled(before, i));
                lemma_chain_push(settled_step(), trace, order@.subrange(0, k as int), *self, i);
                trace = trace.push(*self);
                assert(order@.subrange(0, k as int).push(i) =~= order@.subrange(0, k + 1));
            }
            k = k + 1;
        }
        assert(stage(settled_step(), d0, *self, order@.subrange(0, k as int)));
        assert(self.group_done(d0, gi as int, order@, k as int, *self));
    }

    /// Place the groups' cells, group by group.
    pub fn place_groups2(&mut self)
        requires
            old(self).wf(),
        ensures
            final(self).wf(),
            final(self).same_setting(*old(self)),
            stage(group_step(), *old(self), *final(self), first_numbers(old(self).groups@.len() as int)),
    {
        let ghost d0 = *self;
        let ghost mut trace: Seq<Diamond> = seq![d0];
        let n: usize = self.groups.len();
        let mut g: usize = 0;
        assert(first_numbers(0) =~= Seq::empty());
        while g < n
            invariant
                self.wf(),
                self.same_setting(d0),
                n == d0.groups@.len(),
                g <= n,
                chain(group_step(), trace, first_numbers(g as int)),
                trace[0] == d0,
                trace.last() == *self,
            decreases n - g,
        {
            let ghost before = *self;
            self.place_group(g);
            proof {
                lemma_chain_push(group_step(), trace, first_numbers(g as int), *self, g as int);
                trace = trace.push(*self);
                assert(first_numbers(g as int).push(g as int) =~= first_numbers(g + 1));
            }
            g = g + 1;
        }
        assert(chain(group_step(), trace, first_numbers(n as int)));
    }

    /// The initial footprint of the last cell with a name.
    pub open spec fn location(&self, name: Seq<char>) -> Option<Box4> {
        match cell_named(self.cells@, name, self.cells@.len() as int) {
            Some(i) => Some(self.cells@[i].foot()),
            None => None,
        }
    }

    /// `self` is `o` with each grouped cell given its region by its initial location.
    pub open spec fn regions_assigned(&self, o: Diamond) -> bool {
        &&& self.grid == o.grid
        &&& self.out == o.out
        &&& self.cells == o.cells
        &&& self.group_of == o.group_of
        &&& self.placed == o.placed
        &&& self.groups == o.groups
        &&& self.regions.rtree@ == tree_of(o.groups@, o.groups@.len() as int)
        &&& self.regions.assigned@ == assignments(o.groups@, |n: Seq<char>| o.location(n), o.groups@.len() as int)
    }

    /// Give each grouped cell its region, by its initial location.
    pub fn group_assign_cell_regions(&mut self)
        requires
            old(self).wf(),
        ensures
            final(self).wf(),
            final(self).regions_assigned(*old(self)),
    {
        let ghost d0 = *self;
        let cells = &self.cells;
        let loc = |n: &str| -> (r: Option<Box4>)
            ensures
                r == (match cell_named(cells@, n@, cells@.len() as int) {
                    Some(i) => Some(cells@[i].foot()),
                    None => None,
                }),
            {
                match index_of(cells, n) {
                    Some(i) => Some((cells[i].x, cells[i].y, cells[i].w, cells[i].h)),
                    None => None,
                }
            };
        proof {
            assert forall|i: int, k: int| 0 <= i < self.groups@.len() && 0 <= k < self.groups@[i].rects@.len() implies ({
                let b = #[trigger] self.groups@[i].rects@[k];
                b.2 > i32::MIN && b.3 > i32::MIN
            }) by {
                assert(rect_ok(self.groups@[i].rects@[k]));
            }
        }
        let r = Regions::from_groups(self.groups.as_slice(), &loc);
        proof {
            let f = |n: Seq<char>| d0.location(n);
            assert(agrees_name(loc, f));
        }
        self.regions = r;
    }

    /// Whether placing the groups leads from `o` to `self`: regions assigned, grouped cells drawn to
    /// their groups, others cleared off the regions, then each group placed.
    pub open spec fn groups_placed(&self, o: Diamond) -> bool {
        exists|a: Diamond, b: Diamond, c: Diamond, ix: Seq<usize>| {
            &&& #[trigger] a.regions_assigned(o)
            &&& stage(drawn_step(), a, b, visits(a.groups@, a.cells@, a.groups@.len() as int))
            &&& by_name(b.cells@, ix)
            &&& #[trigger] stage(cleared_step(), b, c, ix)
            &&& stage(group_step(), c, *self, first_numbers(c.groups@.len() as int))
        }
    }

    /// Place the grouped cells.
    pub fn place_groups(&mut self)
        requires
            old(self).wf(),
        ensures
            final(self).wf(),
            final(self).groups_placed(*old(self)),
    {
        self.group_assign_cell_regions();
        let ghost a = *self;
        self.pre_place_groups();
        let ghost b = *self;
        self.pre_place();
        let ghost c = *self;
        proof {
            let ix = choose|ix: Seq<usize>| by_name(b.cells@, ix) && #[trigger] stage(cleared_step(), b, c, ix);
            assert(by_name(b.cells@, ix) && stage(cleared_step(), b, c, ix));
        }
        self.place_groups2();
        assert(a.regions_assigned(*old(self)));
    }

    /// `self` is `o` with the regions' squares claimed.
    pub open spec fn squares_claimed(&self, o: Diamond) -> bool {
        &&& self.out == o.out
        &&& self.cells == o.cells
        &&& self.group_of == o.group_of
        &&& self.placed == o.placed
        &&& self.groups == o.groups
        &&& self.regions == o.regions
        &&& self.grid.same_frame(o.grid)
        &&& forall|gx: int, gy: int| #![trigger self.grid.px(gx, gy)] o.grid.inside(gx, gy) ==>
            self.grid.px(gx, gy) == grouped_pixel(o.grid, o.groups@, o.groups@.len() as int, gx, gy)
    }

    /// Block the squares on region edges and give regions their squares.
    pub fn group_init_pixels(&mut self)
        requires
            old(self).wf(),
            old(self).groups@.len() <= 0x7fff_ffff,
            forall|i: int| 0 <= i < old(self).groups@.len() ==> (#[trigger] old(self).groups@[i]).rects@.len() <= 0x7fff_ffff,
        ensures
            final(self).wf(),
            final(self).squares_claimed(*old(self)),
    {
        group_init_pixels(&mut self.grid, self.groups.as_slice());
    }
}

// ── from a design to its placement ───────────────────────────────────────────────────────────

/// An instance of the design. Coordinates are absolute.
#[derive(Debug)]
pub struct PlaceInst {
    pub name: String,
    pub x: i32,
    pub y: i32,
    /// The master's size.
    pub w: i32,
    pub h: i32,
    pub master_type: String,
    pub status: String,
    /// The master's site, and how many rows its row pattern has, 0 without one.
    pub site: String,
    pub row_pattern_len: usize,
}

/// What of a design the diamond legalizer reads.
#[derive(Debug)]
pub struct PlaceInput {
    pub grid: GridInput,
    pub insts: Vec<PlaceInst>,
    pub groups: Vec<GroupInput>,
    /// The cells of the network, by name.
    pub network: Vec<String>,
}

/// Instances that never move: firm or locked ones, and blocks.
pub open spec fn stays(i: PlaceInst) -> bool {
    i.status@ == "FIRM"@ || i.status@ == "LOCKED"@ || has_part(i.master_type@, "BLOCK"@)
}

/// Instances that are legalized: core cells that do not stay.
pub open spec fn may_move(i: PlaceInst) -> bool {
    !stays(i) && has_part(i.master_type@, "CORE"@)
}

/// A master's height in rows, from the master alone: the height divided upward by the row height where all
/// rows share one, else the length of the site's row pattern, else one.
pub open spec fn master_rows(g: Grid, h: int, row_pattern_len: int) -> int {
    match g.row_height() {
        Some(rh) => imax(1, ceil_quot(h, rh)),
        None => if row_pattern_len > 0 { row_pattern_len } else { 1 },
    }
}

/// The movable cell of an instance. Its distance is measured from its core-relative corner to the
/// absolute core centre.
pub open spec fn movable_of(g: Grid, i: PlaceInst) -> Movable {
    let x = i.x - g.core.0;
    let y = i.y - g.core.1;
    Movable {
        name: i.name,
        key: OrderKey {
            multi_row: master_rows(g, i.h as int, i.row_pattern_len as int) > 1,
            area: (i.w * i.h) as i64,
            center_dist: (dist(x, trunc_quot(g.core.0 + g.core.2, 2)) + dist(y, trunc_quot(g.core.1 + g.core.3, 2))) as i64,
            name: i.name,
        },
        x: x as i32,
        y: y as i32,
        w: i.w,
        h: i.h,
        site: i.site,
    }
}

/// The movable cells of the first `n` instances.
pub open spec fn movables(g: Grid, insts: Seq<PlaceInst>, n: int) -> Seq<Movable>
    decreases n,
{
    if n <= 0 {
        Seq::empty()
    } else {
        let s = movables(g, insts, n - 1);
        if may_move(insts[n - 1]) { s.push(movable_of(g, insts[n - 1])) } else { s }
    }
}

/// `trace` leads from a grid to the one with every staying instance painted.
pub open spec fn fixed_chain(g: Grid, insts: Seq<PlaceInst>, trace: Seq<Grid>) -> bool {
    &&& trace.len() == insts.len() + 1
    &&& trace[0] == g
    &&& forall|k: int| 0 <= k < insts.len() ==> fixed_link(g, #[trigger] insts[k], trace[k], trace[k + 1])
}

/// One instance's part in painting the staying ones.
pub open spec fn fixed_link(g: Grid, i: PlaceInst, a: Grid, b: Grid) -> bool {
    if stays(i) {
        b.is_stamped(a, g.cover(i.x - g.core.0, i.y - g.core.1, i.w as int, i.h as int), Stamp::Occupy(None))
    } else {
        b == a
    }
}

/// Whether some instance of a group is the cell `i`.
pub open spec fn has_member(g: Group, cells: Seq<Movable>, i: int) -> bool {
    exists|c: int| 0 <= c < g.cells@.len() && cell_named(cells, (#[trigger] g.cells@[c])@, cells.len() as int) == Some(i)
}

/// The last of the first `n` groups that a cell is in.
pub open spec fn group_of_cell(groups: Seq<Group>, cells: Seq<Movable>, i: int, n: int) -> Option<usize>
    decreases n,
{
    if n <= 0 {
        None
    } else if has_member(groups[n - 1], cells, i) {
        Some((n - 1) as usize)
    } else {
        group_of_cell(groups, cells, i, n - 1)
    }
}

/// The keys of those of the first `n` instances that neither stay nor are legalized.
pub open spec fn excluded(insts: Seq<PlaceInst>, n: int) -> Seq<Seq<char>>
    decreases n,
{
    if n <= 0 {
        Seq::empty()
    } else {
        let i = insts[n - 1];
        let s = excluded(insts, n - 1);
        if stays(i) || may_move(i) { s } else { s.push(exclusion_key(i.master_type@, i.status@)) }
    }
}

/// What the legalizer leaves out, named on every run.
pub open spec fn left_out() -> Seq<Seq<char>> {
    seq![
        "rip_up_and_replace"@,
        "padding"@,
        "one_site_gaps"@,
        "legalPt hopeless/block-edge refinement"@,
        "groups: brickPlace1/brickPlace2"@,
        "groups: groupRefine/anneal"@,
        "incremental placement"@,
    ]
}

/// What the legalizer leaves out.
pub fn not_done() -> (r: Vec<String>)
    ensures
        texts(r@) == left_out(),
{
    let mut v: Vec<String> = Vec::new();
    v.push("rip_up_and_replace".to_owned());
    v.push("padding".to_owned());
    v.push("one_site_gaps".to_owned());
    v.push("legalPt hopeless/block-edge refinement".to_owned());
    v.push("groups: brickPlace1/brickPlace2".to_owned());
    v.push("groups: groupRefine/anneal".to_owned());
    v.push("incremental placement".to_owned());
    assert(texts(v@) =~= left_out());
    v
}

impl PlaceInput {
    /// The instances, the regions and the grid fit the machine's numbers.
    pub open spec fn fits(&self, g: Grid) -> bool {
        &&& 0 < g.row_site_count <= PLACE_LIMIT
        &&& g.row_count <= PLACE_LIMIT
        &&& self.groups@.len() <= 0x7fff_ffff
        &&& forall|k: int| 0 <= k < self.insts@.len() ==> inst_fits(g, #[trigger] self.insts@[k])
        &&& forall|i: int| 0 <= i < self.groups@.len() ==> (#[trigger] self.groups@[i]).boundaries@.len() <= 0x7fff_ffff
        &&& forall|i: int, k: int| 0 <= i < self.groups@.len() && 0 <= k < self.groups@[i].boundaries@.len() ==>
            clip_fits(self.grid.core, #[trigger] self.groups@[i].boundaries@[k]) && rect_ok(clipped(self.grid.core, self.groups@[i].boundaries@[k]))
    }

    /// Whether `s` is the legalizer's first state on the grid `g`.
    pub open spec fn starts(&self, g: Grid, s: Diamond) -> bool {
        let ix = with_region(self.groups@, self.groups@.len() as int);
        &&& exists|trace: Seq<Grid>| #[trigger] fixed_chain(g, self.insts@, trace) && trace.last() == s.grid
        &&& s.cells@ == movables(g, self.insts@, self.insts@.len() as int)
        &&& s.placed@ == Seq::new(s.cells@.len(), |i: int| false)
        &&& s.groups@.len() == ix.len()
        &&& forall|k: int| 0 <= k < s.groups@.len() ==> is_group_of(#[trigger] s.groups@[k], self.groups@[ix[k]], g.core, self.network@)
        &&& s.group_of@ == Seq::new(s.cells@.len(), |i: int| group_of_cell(s.groups@, s.cells@, i, s.groups@.len() as int))
        &&& s.out.placed@.len() == 0
        &&& s.out.failures@.len() == 0
        &&& texts(s.out.not_done@) == left_out()
        &&& is_tally(s.out.filtered_out@, excluded(self.insts@, self.insts@.len() as int))
        &&& s.regions.rtree@.len() == 0
        &&& s.regions.assigned@.len() == 0
    }

    /// Whether a run on the grid `g` goes from its first state `a` over `b`, where the regions'
    /// squares are claimed, and `c`, where the groups are placed, to `e`, with the result `out`.
    pub open spec fn runs(&self, g: Grid, a: Diamond, b: Diamond, c: Diamond, e: Diamond, out: Legalized) -> bool {
        &&& self.grid.makes(g)
        &&& self.starts(g, a)
        &&& b.squares_claimed(a)
        &&& if b.groups@.len() > 0 { c.groups_placed(b) } else { c == b }
        &&& e.placed_all(c)
        &&& e.out == out
    }

    /// Whether `out` is a legalization of the design.
    pub open spec fn legalized(&self, out: Legalized) -> bool {
        exists|g: Grid, a: Diamond, b: Diamond, c: Diamond, e: Diamond| #[trigger] self.runs(g, a, b, c, e, out)
    }
}

/// An instance's numbers are in range.
pub open spec fn inst_fits(g: Grid, i: PlaceInst) -> bool {
    &&& -PLACE_LIMIT <= i.x - g.core.0 <= PLACE_LIMIT
    &&& -PLACE_LIMIT <= i.y - g.core.1 <= PLACE_LIMIT
    &&& 0 <= i.w <= PLACE_LIMIT
    &&& 1 <= i.h <= PLACE_LIMIT
    &&& i.row_pattern_len <= i32::MAX
}

fn inst_stays(i: &PlaceInst) -> (r: bool)
    ensures
        r == stays(*i),
{
    same_text(i.status.as_str(), "FIRM") || same_text(i.status.as_str(), "LOCKED") || contains(i.master_type.as_str(), "BLOCK")
}

/// The movable cell of an instance.
fn make_movable(g: &Grid, i: &PlaceInst) -> (m: Movable)
    requires
        g.wf(),
        inst_fits(*g, *i),
    ensures
        m == movable_of(*g, *i),
        movable_ok(m),
{
    let x: i32 = i.x - g.core.0;
    let y: i32 = i.y - g.core.1;
    let cx: i64 = (g.core.0 as i64 + g.core.2 as i64) / 2;
    let cy: i64 = (g.core.1 as i64 + g.core.3 as i64) / 2;
    proof {
        assert(0 <= i.w * i.h <= 0x2000_0000 * 0x2000_0000) by (nonlinear_arith)
            requires 0 <= i.w <= 0x2000_0000, 0 <= i.h <= 0x2000_0000;
    }
    let multi_row: bool = g.grid_height(i.h, i.row_pattern_len) > 1;
    let far: i64 = distance(x as i64, cx) + distance(y as i64, cy);
    Movable {
        name: i.name.clone(),
        key: OrderKey { multi_row, area: i.w as i64 * i.h as i64, center_dist: far, name: i.name.clone() },
        x,
        y,
        w: i.w,
        h: i.h,
        site: i.site.clone(),
    }
}

/// A span depends on the frame alone, and so does what a cell covers.
proof fn lemma_frame_specs(a: Grid, b: Grid, y: int, h: int, x: int, w: int)
    requires
        a.wf(),
        b.wf(),
        a.same_frame(b),
    ensures
        a.span(y, h) == b.span(y, h),
        a.cover(x, y, w, h) == b.cover(x, y, w, h),
{
    a.lemma_same_rows(b, y);
    a.lemma_same_rows(b, y + h - 1);
    if a.row_count > 0 {
        a.lemma_same_rows(b, a.row_y@[a.snap_down(y)] + h);
    }
}

impl Diamond {
    /// Each cell's group: the last one that names it.
    fn find_groups(cells: &Vec<Movable>, groups: &Vec<Group>) -> (r: Vec<Option<usize>>)
        ensures
            r@ == Seq::new(cells@.len(), |i: int| group_of_cell(groups@, cells@, i, groups@.len() as int)),
            forall|i: int| 0 <= i < r@.len() ==> (#[trigger] r@[i] matches Some(g) ==> g < groups@.len()),
    {
        let n: usize = cells.len();
        let mut out: Vec<Option<usize>> = Vec::new();
        while out.len() < n
            invariant
                out@.len() <= n,
                forall|i: int| 0 <= i < out@.len() ==> #[trigger] out@[i] is None,
            decreases n - out@.len(),
        {
            out.push(None);
        }
        let mut g: usize = 0;
        while g < groups.len()
            invariant
                g <= groups@.len(),
                n == cells@.len(),
                out@.len() == n,
                forall|i: int| 0 <= i < n ==> #[trigger] out@[i] == group_of_cell(groups@, cells@, i, g as int),
                forall|i: int| 0 <= i < n ==> (#[trigger] out@[i] matches Some(k) ==> k < groups@.len()),
            decreases groups@.len() - g,
        {
            let ghost before = out@;
            let members = &groups[g].cells;
            let mut c: usize = 0;
            while c < members.len()
                invariant
                    g < groups@.len(),
                    members == &groups@[g as int].cells,
                    c <= members@.len(),
                    n == cells@.len(),
                    out@.len() == n,
                    before.len() == n,
                    forall|i: int| 0 <= i < n ==> (#[trigger] before[i] matches Some(k) ==> k < groups@.len()),
                    forall|i: int| 0 <= i < n ==> #[trigger] out@[i] == if exists|q: int| 0 <= q < c && cell_named(cells@, (#[trigger] members@[q])@, cells@.len() as int) == Some(i) { Some(g) } else { before[i] },
                decreases members@.len() - c,
            {
                let ghost out0 = out@;
                let found = index_of(cells, members[c].as_str());
                if let Some(i) = found {
                    out[i] = Some(g);
                }
                assert forall|i: int| 0 <= i < n implies #[trigger] out@[i] == if exists|q: int| 0 <= q < c + 1 && cell_named(cells@, (#[trigger] members@[q])@, cells@.len() as int) == Some(i) { Some(g) } else { before[i] } by {
                    let hit = cell_named(cells@, members@[c as int]@, cells@.len() as int);
                    if exists|q: int| 0 <= q < c && cell_named(cells@, (#[trigger] members@[q])@, cells@.len() as int) == Some(i) {
                        let q = choose|q: int| 0 <= q < c && cell_named(cells@, (#[trigger] members@[q])@, cells@.len() as int) == Some(i);
                        assert(cell_named(cells@, members@[q]@, cells@.len() as int) == Some(i));
                        assert(out0[i] == Some(g));
                    } else {
                        assert(out0[i] == before[i]);
                        if hit == Some(i) {
                            assert(cell_named(cells@, members@[c as int]@, cells@.len() as int) == Some(i));
                        } else if exists|q: int| 0 <= q < c + 1 && cell_named(cells@, (#[trigger] members@[q])@, cells@.len() as int) == Some(i) {
                            let q = choose|q: int| 0 <= q < c + 1 && cell_named(cells@, (#[trigger] members@[q])@, cells@.len() as int) == Some(i);
                            assert(q < c);
                        }
                    }
                }
                c = c + 1;
            }
            assert forall|i: int| 0 <= i < n implies #[trigger] out@[i] == group_of_cell(groups@, cells@, i, g + 1) by {
                assert(before[i] == group_of_cell(groups@, cells@, i, g as int));
                assert(has_member(groups@[g as int], cells@, i) == exists|q: int| 0 <= q < c && cell_named(cells@, (#[trigger] members@[q])@, cells@.len() as int) == Some(i));
            }
            g = g + 1;
        }
        assert(out@ =~= Seq::new(cells@.len(), |i: int| group_of_cell(groups@, cells@, i, groups@.len() as int)));
        out
    }

    /// The legalizer's first state: the grid with the staying instances painted, the movable cells,
    /// and the groups.
    pub fn init(d: &PlaceInput) -> (r: Result<Diamond, GridError>)
        requires
            d.grid.in_range(),
            rows_fit(d.grid),
            forall|g: Grid| #[trigger] d.grid.makes(g) ==> d.fits(g),
        ensures
            match r {
                Err(e) => d.grid.refused(e),
                Ok(s) => {
                    &&& d.grid.makeable()
                    &&& s.wf()
                    &&& s.groups@.len() <= 0x7fff_ffff
                    &&& forall|i: int| 0 <= i < s.groups@.len() ==> (#[trigger] s.groups@[i]).rects@.len() <= 0x7fff_ffff
                    &&& exists|g: Grid| d.grid.makes(g) && #[trigger] d.starts(g, s)
                },
            },
    {
        let mut grid = match Grid::build(&d.grid) {
            Err(e) => return Err(e),
            Ok(g) => g,
        };
        let ghost g0 = grid;
        assert(d.fits(g0));
        let ghost mut trace: Seq<Grid> = seq![g0];
        let mut cells: Vec<Movable> = Vec::new();
        let mut filtered: Vec<(String, usize)> = Vec::new();
        let mut k: usize = 0;
        while k < d.insts.len()
            invariant
                k <= d.insts@.len(),
                is_tally(filtered@, excluded(d.insts@, k as int)),
                excluded(d.insts@, k as int).len() <= k,
                d.fits(g0),
                g0.wf(),
                grid.wf(),
                grid.same_frame(g0),
                trace.len() == k + 1,
                trace[0] == g0,
                trace.last() == grid,
                forall|j: int| 0 <= j < k ==> fixed_link(g0, #[trigger] d.insts@[j], trace[j], trace[j + 1]),
                cells@ == movables(g0, d.insts@, k as int),
                forall|j: int| 0 <= j < cells@.len() ==> movable_ok(#[trigger] cells@[j]),
            decreases d.insts@.len() - k,
        {
            let ghost before = grid;
            let i = &d.insts[k];
            assert(inst_fits(g0, d.insts@[k as int]));
            if inst_stays(i) {
                proof {
                    lemma_frame_specs(grid, g0, i.y - g0.core.1, i.h as int, i.x - g0.core.0, i.w as int);
                }
                grid.paint(i.x - grid.core.0, i.y - grid.core.1, i.w, i.h, false);
            } else if contains(i.master_type.as_str(), "CORE") {
                let m = make_movable(&grid, i);
                proof {
                    lemma_frame_specs(grid, g0, i.y - g0.core.1, i.h as int, i.x - g0.core.0, i.w as int);
                    assert(m == movable_of(g0, d.insts@[k as int]));
                }
                cells.push(m);
            } else {
                let key = exclusion_key_of(i.master_type.as_str(), i.status.as_str());
                count_up(&mut filtered, key, Ghost(excluded(d.insts@, k as int)));
            }
            proof {
                let tr = trace.push(grid);
                assert forall|j: int| 0 <= j < k + 1 implies fixed_link(g0, #[trigger] d.insts@[j], tr[j], tr[j + 1]) by {
                    if j < k {
                        assert(tr[j] == trace[j] && tr[j + 1] == trace[j + 1]);
                    } else {
                        assert(tr[j] == before);
                    }
                }
                trace = tr;
            }
            k = k + 1;
        }
        assert(fixed_chain(g0, d.insts@, trace));
        let groups = placement_groups(d.groups.as_slice(), d.grid.core, d.network.as_slice());
        let group_of = Diamond::find_groups(&cells, &groups);
        let n: usize = cells.len();
        let mut placed: Vec<bool> = Vec::new();
        while placed.len() < n
            invariant
                placed@.len() <= n,
                forall|i: int| 0 <= i < placed@.len() ==> !#[trigger] placed@[i],
            decreases n - placed@.len(),
        {
            placed.push(false);
        }
        assert(placed@ =~= Seq::new(cells@.len(), |i: int| false));
        let s = Diamond {
            grid,
            out: Legalized { placed: Vec::new(), failures: Vec::new(), not_done: not_done(), filtered_out: filtered },
            cells,
            group_of,
            placed,
            groups,
            regions: Regions { rtree: Vec::new(), assigned: Vec::new() },
        };
        proof {
            let ix = with_region(d.groups@, d.groups@.len() as int);
            lemma_with_region_len(d.groups@, d.groups@.len() as int);
            assert forall|g: int, q: int| 0 <= g < s.groups@.len() && 0 <= q < s.groups@[g].rects@.len() implies rect_ok(#[trigger] s.groups@[g].rects@[q]) by {
                crate::regions::lemma_with_region(d.groups@, d.groups@.len() as int, g);
                assert(is_group_of(s.groups@[g], d.groups@[ix[g]], d.grid.core, d.network@));
                assert(s.groups@[g].rects@[q] == clipped(d.grid.core, d.groups@[ix[g]].boundaries@[q]));
                let b = d.groups@[ix[g]].boundaries@[q];
            }
            assert forall|i: int| 0 <= i < s.groups@.len() implies (#[trigger] s.groups@[i]).rects@.len() <= 0x7fff_ffff by {
                crate::regions::lemma_with_region(d.groups@, d.groups@.len() as int, i);
                assert(is_group_of(s.groups@[i], d.groups@[ix[i]], d.grid.core, d.network@));
            }
            assert forall|q: int| 0 <= q <= s.grid.row_count implies i32::MIN <= #[trigger] s.grid.row_y@[q] + s.grid.core.1 <= i32::MAX by {
                lemma_rows_absolute(d.grid, g0, q);
            }
            lemma_columns_absolute(d.grid, g0, g0.row_site_count as int);
            assert(s.wf());
            assert(d.starts(g0, s));
        }
        Ok(s)
    }
}

/// There are no more groups with a region than groups.
proof fn lemma_with_region_len(groups: Seq<GroupInput>, n: int)
    requires
        0 <= n,
    ensures
        with_region(groups, n).len() <= n,
    decreases n,
{
    if n > 0 {
        lemma_with_region_len(groups, n - 1);
    }
}

/// Legalize a design by diamond search.
///
/// Staying instances are painted first. Regions claim their squares. Grouped cells are placed within
/// their regions, then the others, hardest first, each at the nearest square where it can sit.
pub fn legalize(d: &PlaceInput) -> (r: Result<Legalized, GridError>)
    requires
        d.grid.in_range(),
        rows_fit(d.grid),
        forall|g: Grid| #[trigger] d.grid.makes(g) ==> d.fits(g),
    ensures
        match r {
            Err(e) => d.grid.refused(e),
            Ok(out) => {
                &&& d.grid.makeable()
                &&& d.legalized(out)
            },
        },
{
    let mut s = match Diamond::init(d) {
        Err(e) => return Err(e),
        Ok(s) => s,
    };
    let ghost a = s;
    s.group_init_pixels();
    let ghost b = s;
    if s.groups.len() > 0 {
        s.place_groups();
    }
    let ghost c = s;
    s.place();
    let ghost e = s;
    proof {
        let g = choose|g: Grid| d.grid.makes(g) && #[trigger] d.starts(g, a);
        assert(d.runs(g, a, b, c, e, e.out));
    }
    Ok(s.out)
}

} // verus!
