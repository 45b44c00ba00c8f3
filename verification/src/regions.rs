//! Placement regions: the groups that have one, the region each grouped cell belongs to, the squares
//! a region claims, and the fences of the negotiation legalizer.

use vstd::prelude::*;
use crate::arith::{ceil_quot, div_ceil, div_floor, div_trunc, imax, imin, trunc_quot};
use crate::grid::{in_box, Grid, Pixel};
use crate::text::same_text;

verus! {

/// A box: x and y of the lower left corner, x and y of the upper right one.
pub type Box4 = (i32, i32, i32, i32);

/// One placement group: a group of the design that has a region.
#[derive(Debug)]
pub struct Group {
    pub name: String,
    /// The region's boundaries, clipped to the core and core-relative.
    pub rects: Vec<Box4>,
    /// The group's instances that are in the network.
    pub cells: Vec<String>,
}

/// The smallest box around the first `n` boxes, for `n > 0`.
pub open spec fn merged(rects: Seq<Box4>, n: int) -> Box4
    decreases n,
{
    if n <= 1 {
        rects[0]
    } else {
        let a = merged(rects, n - 1);
        let b = rects[n - 1];
        (
            if b.0 < a.0 { b.0 } else { a.0 },
            if b.1 < a.1 { b.1 } else { a.1 },
            if b.2 > a.2 { b.2 } else { a.2 },
            if b.3 > a.3 { b.3 } else { a.3 },
        )
    }
}

/// Whether box `a` holds box `b`.
pub open spec fn box_holds(a: Box4, b: Box4) -> bool {
    a.0 <= b.0 && a.1 <= b.1 && b.2 <= a.2 && b.3 <= a.3
}

proof fn lemma_merged_holds(rects: Seq<Box4>, n: int, k: int)
    requires
        0 <= k < n <= rects.len(),
    ensures
        box_holds(merged(rects, n), rects[k]),
    decreases n,
{
    if n > 1 && k < n - 1 {
        lemma_merged_holds(rects, n - 1, k);
    }
}

/// A group's bounding box holds each of its boxes.
pub proof fn law_bbox_holds_every_rect(g: Group, k: int)
    requires
        0 <= k < g.rects@.len(),
    ensures
        box_holds(merged(g.rects@, g.rects@.len() as int), g.rects@[k]),
{
    lemma_merged_holds(g.rects@, g.rects@.len() as int, k);
}

impl Group {
    /// The smallest box around the group's boxes.
    pub fn bbox(&self) -> (r: Option<Box4>)
        ensures
            r == if self.rects@.len() == 0 { None } else { Some(merged(self.rects@, self.rects@.len() as int)) },
    {
        if self.rects.len() == 0 {
            return None;
        }
        let mut a = self.rects[0];
        let mut i: usize = 1;
        while i < self.rects.len()
            invariant
                1 <= i <= self.rects@.len(),
                a == merged(self.rects@, i as int),
            decreases self.rects@.len() - i,
        {
            let b = self.rects[i];
            a = (
                if b.0 < a.0 { b.0 } else { a.0 },
                if b.1 < a.1 { b.1 } else { a.1 },
                if b.2 > a.2 { b.2 } else { a.2 },
                if b.3 > a.3 { b.3 } else { a.3 },
            );
            i = i + 1;
        }
        Some(a)
    }
}

/// The squares a box wholly covers.
pub open spec fn within(g: Grid, r: Box4) -> (int, int, int, int) {
    (
        ceil_quot(r.0 as int, g.site_width as int),
        g.end_row(r.1 as int),
        r.2 as int / g.site_width as int,
        g.boundary_down(r.3 as int, g.row_count as int),
    )
}

/// The grid squares a core-relative box wholly covers: `(x_lo, y_lo, x_hi, y_hi)`, half open.
pub fn grid_within(grid: &Grid, r: &Box4) -> (b: (i64, i64, i64, i64))
    requires
        grid.wf(),
    ensures
        (b.0 as int, b.1 as int, b.2 as int, b.3 as int) == within(*grid, *r),
        -0x1_0000_0000 <= b.0 <= 0x1_0000_0000,
        -0x1_0000_0000 <= b.2 <= 0x1_0000_0000,
        0 <= b.1 <= grid.row_count,
        0 <= b.3 <= grid.row_count,
{
    let sw: i64 = grid.site_width as i64;
    let x0: i64 = div_ceil(r.0 as i64, sw);
    let x1: i64 = div_floor(r.2 as i64, sw);
    let top: usize = grid.grid_boundary_down_y(r.3);
    proof {
        assert(-0x8000_0000 <= (-r.0) as int / sw as int <= 0x8000_0000) by (nonlinear_arith)
            requires sw > 0, -0x8000_0000 <= r.0 <= 0x7fff_ffff;
        assert(-0x8000_0000 <= r.2 as int / sw as int <= 0x8000_0000) by (nonlinear_arith)
            requires sw > 0, -0x8000_0000 <= r.2 <= 0x7fff_ffff;
    }
    (x0, grid.grid_end_y_dbu(r.1) as i64, x1, top as i64)
}

// ── groups ───────────────────────────────────────────────────────────────────────────────────

/// A group of the design, with absolute boundaries.
#[derive(Debug)]
pub struct GroupInput {
    pub name: String,
    pub has_region: bool,
    pub boundaries: Vec<Box4>,
    pub insts: Vec<String>,
}

/// A boundary clipped to the core and made core-relative.
pub open spec fn clipped(core: Box4, b: Box4) -> Box4 {
    (
        (imax(b.0 as int, core.0 as int) - core.0) as i32,
        (imax(b.1 as int, core.1 as int) - core.1) as i32,
        (imin(b.2 as int, core.2 as int) - core.0) as i32,
        (imin(b.3 as int, core.3 as int) - core.1) as i32,
    )
}

/// Clipping stays within the coordinate type.
pub open spec fn clip_fits(core: Box4, b: Box4) -> bool {
    &&& imax(b.0 as int, core.0 as int) - core.0 <= i32::MAX
    &&& imax(b.1 as int, core.1 as int) - core.1 <= i32::MAX
    &&& i32::MIN <= imin(b.2 as int, core.2 as int) - core.0 <= i32::MAX
    &&& i32::MIN <= imin(b.3 as int, core.3 as int) - core.1 <= i32::MAX
}

/// Whether a list of names holds a name.
pub open spec fn names_hold(names: Seq<String>, n: Seq<char>) -> bool {
    exists|k: int| 0 <= k < names.len() && (#[trigger] names[k])@ == n
}

/// Those of the first `n` names that the network holds.
pub open spec fn members(insts: Seq<String>, network: Seq<String>, n: int) -> Seq<String>
    decreases n,
{
    if n <= 0 {
        Seq::empty()
    } else {
        let s = members(insts, network, n - 1);
        if names_hold(network, insts[n - 1]@) { s.push(insts[n - 1]) } else { s }
    }
}

/// Whether `g` is the placement group of a group of the design.
pub open spec fn is_group_of(g: Group, d: GroupInput, core: Box4, network: Seq<String>) -> bool {
    &&& g.name == d.name
    &&& g.rects@ == Seq::new(d.boundaries@.len(), |k: int| clipped(core, d.boundaries@[k]))
    &&& g.cells@ == members(d.insts@, network, d.insts@.len() as int)
}

/// The indices below `n` of the groups with a region.
pub open spec fn with_region(groups: Seq<GroupInput>, n: int) -> Seq<int>
    decreases n,
{
    if n <= 0 {
        Seq::empty()
    } else {
        let s = with_region(groups, n - 1);
        if groups[n - 1].has_region { s.push(n - 1) } else { s }
    }
}

/// Does a list of names hold a name?
pub fn holds_name(names: &[String], n: &str) -> (r: bool)
    ensures
        r == names_hold(names@, n@),
{
    let mut k: usize = 0;
    while k < names.len()
        invariant
            k <= names@.len(),
            forall|j: int| 0 <= j < k ==> (#[trigger] names@[j])@ != n@,
        decreases names@.len() - k,
    {
        if same_text(names[k].as_str(), n) {
            return true;
        }
        k = k + 1;
    }
    false
}

/// The placement groups: the design's groups with a region, in their order, with their boundaries
/// clipped to the core and their instances that are in the network.
pub fn placement_groups(groups: &[GroupInput], core: Box4, network: &[String]) -> (r: Vec<Group>)
    requires
        forall|i: int, k: int| 0 <= i < groups@.len() && 0 <= k < groups@[i].boundaries@.len() ==> clip_fits(core, #[trigger] groups@[i].boundaries@[k]),
    ensures
        ({
            let ix = with_region(groups@, groups@.len() as int);
            &&& r@.len() == ix.len()
            &&& forall|k: int| 0 <= k < r@.len() ==> is_group_of(#[trigger] r@[k], groups@[ix[k]], core, network@)
        }),
{
    let mut out: Vec<Group> = Vec::new();
    let mut i: usize = 0;
    while i < groups.len()
        invariant
            i <= groups@.len(),
            forall|a: int, k: int| 0 <= a < groups@.len() && 0 <= k < groups@[a].boundaries@.len() ==> clip_fits(core, #[trigger] groups@[a].boundaries@[k]),
            out@.len() == with_region(groups@, i as int).len(),
            forall|k: int| 0 <= k < out@.len() ==> is_group_of(#[trigger] out@[k], groups@[with_region(groups@, i as int)[k]], core, network@),
        decreases groups@.len() - i,
    {
        let d = &groups[i];
        if d.has_region {
            let ghost before = out@;
            let mut rects: Vec<Box4> = Vec::new();
            let mut k: usize = 0;
            while k < d.boundaries.len()
                invariant
                    k <= d.boundaries@.len(),
                    forall|j: int| 0 <= j < d.boundaries@.len() ==> clip_fits(core, #[trigger] d.boundaries@[j]),
                    rects@.len() == k,
                    forall|j: int| 0 <= j < k ==> #[trigger] rects@[j] == clipped(core, d.boundaries@[j]),
                decreases d.boundaries@.len() - k,
            {
                let b = d.boundaries[k];
                assert(clip_fits(core, d.boundaries@[k as int]));
                let x0: i32 = if b.0 > core.0 { b.0 } else { core.0 };
                let y0: i32 = if b.1 > core.1 { b.1 } else { core.1 };
                let x1: i32 = if b.2 < core.2 { b.2 } else { core.2 };
                let y1: i32 = if b.3 < core.3 { b.3 } else { core.3 };
                rects.push((x0 - core.0, y0 - core.1, x1 - core.0, y1 - core.1));
                k = k + 1;
            }
            assert(rects@ =~= Seq::new(d.boundaries@.len(), |k: int| clipped(core, d.boundaries@[k])));
            let mut cells: Vec<String> = Vec::new();
            k = 0;
            while k < d.insts.len()
                invariant
                    k <= d.insts@.len(),
                    cells@ == members(d.insts@, network@, k as int),
                decreases d.insts@.len() - k,
            {
                if holds_name(network, d.insts[k].as_str()) {
                    cells.push(d.insts[k].clone());
                }
                k = k + 1;
            }
            let g = Group { name: d.name.clone(), rects, cells };
            assert(is_group_of(g, groups@[i as int], core, network@));
            out.push(g);
            assert forall|k: int| 0 <= k < out@.len() implies is_group_of(#[trigger] out@[k], groups@[with_region(groups@, i + 1)[k]], core, network@) by {
                if k < before.len() {
                    assert(out@[k] == before[k]);
                }
            }
        }
        i = i + 1;
    }
    out
}

// ── the checker's regions ────────────────────────────────────────────────────────────────────

/// Every group's boxes, and the region of each grouped cell.
#[derive(Debug)]
pub struct Regions {
    /// Every region box `(x_lo, y_lo, x_hi - 1, y_hi - 1)`: the high edges drawn in by one, so that
    /// abutting regions do not meet.
    pub rtree: Vec<Box4>,
    /// Each grouped cell's region; the last entry of a name counts.
    pub assigned: Vec<(String, Box4)>,
}

/// The value that the first `n` entries give a name: that of the last one.
pub open spec fn looked_up<T>(v: Seq<(String, T)>, name: Seq<char>, n: int) -> Option<T>
    decreases n,
{
    if n <= 0 {
        None
    } else if v[n - 1].0@ == name {
        Some(v[n - 1].1)
    } else {
        looked_up(v, name, n - 1)
    }
}

/// The value a table gives a name: that of the last entry.
pub fn look_up<T: Copy>(v: &Vec<(String, T)>, name: &str) -> (r: Option<T>)
    ensures
        r == looked_up(v@, name@, v@.len() as int),
{
    let mut n: usize = v.len();
    while n > 0
        invariant
            n <= v@.len(),
            looked_up(v@, name@, n as int) == looked_up(v@, name@, v@.len() as int),
        decreases n,
    {
        if same_text(v[n - 1].0.as_str(), name) {
            return Some(v[n - 1].1);
        }
        n = n - 1;
    }
    None
}

/// Where a cell's initial footprint `(x, y, w, h)` lies wholly inside a box, edges included.
pub open spec fn foot_inside(f: Box4, r: Box4) -> bool {
    f.0 >= r.0 && f.0 + f.2 <= r.2 && f.1 >= r.1 && f.1 + f.3 <= r.3
}

/// The last of the first `n` boxes that holds a footprint, else `other`.
pub open spec fn chosen_rect(rects: Seq<Box4>, f: Box4, other: Box4, n: int) -> Box4
    decreases n,
{
    if n <= 0 {
        other
    } else if foot_inside(f, rects[n - 1]) {
        rects[n - 1]
    } else {
        chosen_rect(rects, f, other, n - 1)
    }
}

/// A region box as the checker searches it.
pub open spec fn shrunk(r: Box4) -> Box4 {
    (r.0, r.1, (r.2 - 1) as i32, (r.3 - 1) as i32)
}

/// The boxes of the first `n` groups.
pub open spec fn tree_of(groups: Seq<Group>, n: int) -> Seq<Box4>
    decreases n,
{
    if n <= 0 {
        Seq::empty()
    } else {
        tree_of(groups, n - 1) + Seq::new(groups[n - 1].rects@.len(), |k: int| shrunk(groups[n - 1].rects@[k]))
    }
}

/// The region entries of the first `n` cells of a group; a cell without a location has none.
pub open spec fn entries_of(g: Group, loc: spec_fn(Seq<char>) -> Option<Box4>, n: int) -> Seq<(String, Box4)>
    decreases n,
{
    if n <= 0 || g.rects@.len() == 0 {
        Seq::empty()
    } else {
        let s = entries_of(g, loc, n - 1);
        match loc(g.cells@[n - 1]@) {
            Some(f) => s.push((g.cells@[n - 1], chosen_rect(g.rects@, f, g.rects@[0], g.rects@.len() as int))),
            None => s,
        }
    }
}

/// The region entries of the first `n` groups.
pub open spec fn assignments(groups: Seq<Group>, loc: spec_fn(Seq<char>) -> Option<Box4>, n: int) -> Seq<(String, Box4)>
    decreases n,
{
    if n <= 0 {
        Seq::empty()
    } else {
        assignments(groups, loc, n - 1) + entries_of(groups[n - 1], loc, groups[n - 1].cells@.len() as int)
    }
}

/// Whether a lookup by name agrees with a mathematical one.
pub open spec fn agrees_name<F: Fn(&str) -> Option<Box4>>(f: F, g: spec_fn(Seq<char>) -> Option<Box4>) -> bool {
    forall|s: &str, r: Option<Box4>| #[trigger] f.ensures((s,), r) ==> r == g(s@)
}

impl Regions {
    /// The boxes of every group, and each grouped cell's region: the last of its group's boxes that
    /// holds its initial location, else the first.
    pub fn from_groups<F: Fn(&str) -> Option<Box4>>(groups: &[Group], location: &F) -> (r: Regions)
        requires
            forall|s: &str| #[trigger] location.requires((s,)),
            forall|i: int, k: int| 0 <= i < groups@.len() && 0 <= k < groups@[i].rects@.len() ==> ({
                let b = #[trigger] groups@[i].rects@[k];
                b.2 > i32::MIN && b.3 > i32::MIN
            }),
        ensures
            r.rtree@ == tree_of(groups@, groups@.len() as int),
            forall|loc: spec_fn(Seq<char>) -> Option<Box4>| #[trigger] agrees_name(*location, loc) ==>
                r.assigned@ == assignments(groups@, loc, groups@.len() as int),
    {
        let mut rtree: Vec<Box4> = Vec::new();
        let mut assigned: Vec<(String, Box4)> = Vec::new();
        let mut i: usize = 0;
        while i < groups.len()
            invariant
                i <= groups@.len(),
                forall|s: &str| #[trigger] location.requires((s,)),
                forall|a: int, k: int| 0 <= a < groups@.len() && 0 <= k < groups@[a].rects@.len() ==> ({
                    let b = #[trigger] groups@[a].rects@[k];
                    b.2 > i32::MIN && b.3 > i32::MIN
                }),
                rtree@ == tree_of(groups@, i as int),
                forall|loc: spec_fn(Seq<char>) -> Option<Box4>| #[trigger] agrees_name(*location, loc) ==>
                    assigned@ == assignments(groups@, loc, i as int),
            decreases groups@.len() - i,
        {
            let g = &groups[i];
            let ghost tree0 = rtree@;
            let ghost shr = Seq::new(g.rects@.len(), |k: int| shrunk(g.rects@[k]));
            let mut k: usize = 0;
            while k < g.rects.len()
                invariant
                    k <= g.rects@.len(),
                    forall|j: int| 0 <= j < g.rects@.len() ==> (#[trigger] g.rects@[j]).2 > i32::MIN && g.rects@[j].3 > i32::MIN,
                    shr == Seq::new(g.rects@.len(), |k: int| shrunk(g.rects@[k])),
                    rtree@ == tree0 + shr.subrange(0, k as int),
                decreases g.rects@.len() - k,
            {
                let b = g.rects[k];
                rtree.push((b.0, b.1, b.2 - 1, b.3 - 1));
                k = k + 1;
                assert(rtree@ =~= tree0 + shr.subrange(0, k as int));
            }
            assert(shr.subrange(0, k as int) =~= shr);
            let ghost as0 = assigned@;
            if g.rects.len() > 0 {
                let mut c: usize = 0;
                assert forall|loc: spec_fn(Seq<char>) -> Option<Box4>| #[trigger] agrees_name(*location, loc) implies
                    assigned@ == as0 + entries_of(*g, loc, 0) by {
                    assert(as0 + entries_of(*g, loc, 0) =~= as0);
                }
                while c < g.cells.len()
                    invariant
                        c <= g.cells@.len(),
                        g.rects@.len() > 0,
                        forall|s: &str| #[trigger] location.requires((s,)),
                        forall|loc: spec_fn(Seq<char>) -> Option<Box4>| #[trigger] agrees_name(*location, loc) ==>
                            assigned@ == as0 + entries_of(*g, loc, c as int),
                    decreases g.cells@.len() - c,
                {
                    let ghost as1 = assigned@;
                    let got: Option<Box4> = location(g.cells[c].as_str());
                    if let Some(f) = got {
                        let b = choose_rect(&g.rects, f);
                        assigned.push((g.cells[c].clone(), b));
                    }
                    assert forall|loc: spec_fn(Seq<char>) -> Option<Box4>| #[trigger] agrees_name(*location, loc) implies
                        assigned@ == as0 + entries_of(*g, loc, c + 1) by {
                        assert(got == loc(g.cells@[c as int]@));
                        assert(as1 == as0 + entries_of(*g, loc, c as int));
                        assert(assigned@ =~= as0 + entries_of(*g, loc, c + 1));
                    }
                    c = c + 1;
                }
            } else {
                assert forall|loc: spec_fn(Seq<char>) -> Option<Box4>| #[trigger] agrees_name(*location, loc) implies
                    assigned@ == as0 + entries_of(*g, loc, g.cells@.len() as int) by {
                    assert(as0 + entries_of(*g, loc, g.cells@.len() as int) =~= as0);
                }
            }
            i = i + 1;
        }
        Regions { rtree, assigned }
    }

    /// Whether these are the regions of a design: those of its placement groups, and the region of
    /// each grouped cell by its location.
    pub open spec fn built_of(&self, groups: Seq<GroupInput>, core: Box4, network: Seq<String>, loc: spec_fn(Seq<char>) -> Option<Box4>) -> bool {
        exists|gs: Seq<Group>| {
            let ix = with_region(groups, groups.len() as int);
            &&& gs.len() == ix.len()
            &&& forall|k: int| 0 <= k < gs.len() ==> is_group_of(#[trigger] gs[k], groups[ix[k]], core, network)
            &&& self.rtree@ == #[trigger] tree_of(gs, gs.len() as int)
            &&& self.assigned@ == assignments(gs, loc, gs.len() as int)
        }
    }

    /// The regions of a design: its placement groups, and the region of each grouped cell.
    pub fn build<F: Fn(&str) -> Option<Box4>>(groups: &[GroupInput], core: Box4, network: &[String], location: &F) -> (r: Regions)
        requires
            forall|s: &str| #[trigger] location.requires((s,)),
            forall|i: int, k: int| 0 <= i < groups@.len() && 0 <= k < groups@[i].boundaries@.len() ==> clip_fits(core, #[trigger] groups@[i].boundaries@[k]),
            forall|i: int, k: int| 0 <= i < groups@.len() && 0 <= k < groups@[i].boundaries@.len() ==> ({
                let b = clipped(core, #[trigger] groups@[i].boundaries@[k]);
                b.2 > i32::MIN && b.3 > i32::MIN
            }),
        ensures
            forall|loc: spec_fn(Seq<char>) -> Option<Box4>| #[trigger] agrees_name(*location, loc) ==> r.built_of(groups@, core, network@, loc),
    {
        let gs = placement_groups(groups, core, network);
        proof {
            let ix = with_region(groups@, groups@.len() as int);
            assert forall|i: int, k: int| 0 <= i < gs@.len() && 0 <= k < gs@[i].rects@.len() implies ({
                let b = #[trigger] gs@[i].rects@[k];
                b.2 > i32::MIN && b.3 > i32::MIN
            }) by {
                lemma_with_region(groups@, groups@.len() as int, i);
                assert(is_group_of(gs@[i], groups@[ix[i]], core, network@));
                assert(gs@[i].rects@[k] == clipped(core, groups@[ix[i]].boundaries@[k]));
            }
        }
        let r = Regions::from_groups(gs.as_slice(), location);
        assert forall|loc: spec_fn(Seq<char>) -> Option<Box4>| #[trigger] agrees_name(*location, loc) implies r.built_of(groups@, core, network@, loc) by {
            assert(r.rtree@ == tree_of(gs@, gs@.len() as int));
        }
        r
    }

    /// Are there no regions?
    pub fn is_empty(&self) -> (r: bool)
        ensures
            r == (self.rtree@.len() == 0),
    {
        self.rtree.len() == 0
    }
}

pub proof fn lemma_with_region(groups: Seq<GroupInput>, n: int, i: int)
    requires
        0 <= i < with_region(groups, n).len(),
        n <= groups.len(),
    ensures
        0 <= with_region(groups, n)[i] < n,
    decreases n,
{
    if n > 0 && i < with_region(groups, n - 1).len() {
        lemma_with_region(groups, n - 1, i);
    }
}

/// The last box that holds a footprint, else the first.
fn choose_rect(rects: &Vec<Box4>, f: Box4) -> (r: Box4)
    requires
        rects@.len() > 0,
    ensures
        r == chosen_rect(rects@, f, rects@[0], rects@.len() as int),
{
    let mut n: usize = rects.len();
    while n > 0
        invariant
            n <= rects@.len(),
            rects@.len() > 0,
            chosen_rect(rects@, f, rects@[0], n as int) == chosen_rect(rects@, f, rects@[0], rects@.len() as int),
        decreases n,
    {
        let r = rects[n - 1];
        if f.0 >= r.0 && f.0 as i64 + f.2 as i64 <= r.2 as i64 && f.1 >= r.1 && f.1 as i64 + f.3 as i64 <= r.3 as i64 {
            return r;
        }
        n = n - 1;
    }
    rects[0]
}

/// The Y of a row boundary: below the first it is the first, one past the last it is the top of the
/// core, and further up there is none.
pub open spec fn boundary(row_y: Seq<i32>, core_y_max: int, i: int) -> Option<int> {
    let k = imax(i, 0);
    if k < row_y.len() {
        Some(row_y[k] as int)
    } else if k == row_y.len() {
        Some(core_y_max)
    } else {
        None
    }
}

/// The box of a footprint in grid units, its high edges drawn in by one.
pub open spec fn query_box(gx: int, gy: int, gx_end: int, gy_end: int, site_width: int, row_y: Seq<i32>, core_y_max: int) -> Option<(int, int, int, int)> {
    match (boundary(row_y, core_y_max, gy), boundary(row_y, core_y_max, gy_end)) {
        (Some(y0), Some(y1)) => Some((gx * site_width, y0, gx_end * site_width - 1, y1 - 1)),
        _ => None,
    }
}

/// Whether a region box and a query box meet, edges included.
pub open spec fn meets(b: Box4, q: (int, int, int, int)) -> bool {
    b.0 <= q.2 && q.0 <= b.2 && b.1 <= q.3 && q.1 <= b.3
}

/// Whether a region box covers a query box.
pub open spec fn covers_query(b: Box4, q: (int, int, int, int)) -> bool {
    q.0 >= b.0 && q.1 >= b.1 && q.2 <= b.2 && q.3 <= b.3
}

/// Whether no box meets the query.
pub open spec fn meets_none(tree: Seq<Box4>, q: (int, int, int, int)) -> bool {
    forall|k: int| 0 <= k < tree.len() ==> !meets(#[trigger] tree[k], q)
}

/// Whether exactly one box meets the query, and covers it.
pub open spec fn meets_one_covering(tree: Seq<Box4>, q: (int, int, int, int)) -> bool {
    exists|k: int| {
        &&& 0 <= k < tree.len()
        &&& meets(#[trigger] tree[k], q)
        &&& covers_query(tree[k], q)
        &&& forall|j: int| 0 <= j < tree.len() && j != k ==> !meets(#[trigger] tree[j], q)
    }
}

fn boundary_at(row_y: &[i32], core_y_max: i32, i: i64) -> (r: Option<i32>)
    ensures
        boundary(row_y@, core_y_max as int, i as int) == match r { Some(v) => Some(v as int), None => None },
{
    let k: u64 = if i < 0 { 0 } else { i as u64 };
    let n: u64 = row_y.len() as u64;
    if k < n {
        Some(row_y[k as usize])
    } else if k == n {
        Some(core_y_max)
    } else {
        None
    }
}

fn query_at(gx: i64, gy: i64, gx_end: i64, gy_end: i64, site_width: i32, row_y: &[i32], core_y_max: i32) -> (r: Option<(i128, i128, i128, i128)>)
    ensures
        query_box(gx as int, gy as int, gx_end as int, gy_end as int, site_width as int, row_y@, core_y_max as int)
            == match r { Some(q) => Some((q.0 as int, q.1 as int, q.2 as int, q.3 as int)), None => None },
{
    let y0: i32 = match boundary_at(row_y, core_y_max, gy) {
        Some(v) => v,
        None => return None,
    };
    let y1: i32 = match boundary_at(row_y, core_y_max, gy_end) {
        Some(v) => v,
        None => return None,
    };
    proof {
        assert(-0x4000_0000_0000_0000_0000_0000 <= gx * site_width <= 0x4000_0000_0000_0000_0000_0000) by (nonlinear_arith)
            requires -0x8000_0000_0000_0000 <= gx <= 0x7fff_ffff_ffff_ffff, -0x8000_0000 <= site_width <= 0x7fff_ffff;
        assert(-0x4000_0000_0000_0000_0000_0000 <= gx_end * site_width <= 0x4000_0000_0000_0000_0000_0000) by (nonlinear_arith)
            requires -0x8000_0000_0000_0000 <= gx_end <= 0x7fff_ffff_ffff_ffff, -0x8000_0000 <= site_width <= 0x7fff_ffff;
    }
    Some((gx as i128 * site_width as i128, y0 as i128, gx_end as i128 * site_width as i128 - 1, y1 as i128 - 1))
}

fn box_meets(b: &Box4, q: &(i128, i128, i128, i128)) -> (r: bool)
    ensures
        r == meets(*b, (q.0 as int, q.1 as int, q.2 as int, q.3 as int)),
{
    b.0 as i128 <= q.2 && q.0 <= b.2 as i128 && b.1 as i128 <= q.3 && q.1 <= b.3 as i128
}

impl Regions {
    /// Whether a footprint in grid units respects the regions: with a region of its own it must
    /// meet exactly one box, which covers it; without one it must meet none.
    pub open spec fn overlap_allowed(&self, name: Seq<char>, gx: int, gy: int, gx_end: int, gy_end: int, site_width: int, row_y: Seq<i32>, core_y_max: int) -> bool {
        match query_box(gx, gy, gx_end, gy_end, site_width, row_y, core_y_max) {
            None => false,
            Some(q) => if looked_up(self.assigned@, name, self.assigned@.len() as int) is Some {
                meets_one_covering(self.rtree@, q)
            } else {
                meets_none(self.rtree@, q)
            },
        }
    }

    /// The boxes that meet a query: how many, and the first one.
    fn meeting(&self, q: &(i128, i128, i128, i128)) -> (r: (usize, usize))
        ensures
            ({
                let qq = (q.0 as int, q.1 as int, q.2 as int, q.3 as int);
                &&& r.0 == 0 <==> meets_none(self.rtree@, qq)
                &&& r.0 == 1 ==> r.1 < self.rtree@.len() && meets(self.rtree@[r.1 as int], qq)
                    && forall|j: int| 0 <= j < self.rtree@.len() && j != r.1 ==> !meets(#[trigger] self.rtree@[j], qq)
                &&& r.0 > 1 ==> exists|a: int, b: int| 0 <= a < b < self.rtree@.len() && meets(#[trigger] self.rtree@[a], qq) && meets(#[trigger] self.rtree@[b], qq)
            }),
    {
        let ghost qq = (q.0 as int, q.1 as int, q.2 as int, q.3 as int);
        let mut n: usize = 0;
        let mut first: usize = 0;
        let mut k: usize = 0;
        while k < self.rtree.len()
            invariant
                k <= self.rtree@.len(),
                n <= k,
                qq == (q.0 as int, q.1 as int, q.2 as int, q.3 as int),
                n == 0 ==> forall|j: int| 0 <= j < k ==> !meets(#[trigger] self.rtree@[j], qq),
                n >= 1 ==> first < k && meets(self.rtree@[first as int], qq),
                n == 1 ==> forall|j: int| 0 <= j < k && j != first ==> !meets(#[trigger] self.rtree@[j], qq),
                n > 1 ==> exists|a: int, b: int| 0 <= a < b < k && meets(#[trigger] self.rtree@[a], qq) && meets(#[trigger] self.rtree@[b], qq),
            decreases self.rtree@.len() - k,
        {
            if box_meets(&self.rtree[k], q) {
                if n == 0 {
                    first = k;
                } else {
                    assert(meets(self.rtree@[first as int], qq) && meets(self.rtree@[k as int], qq));
                }
                n = n + 1;
            }
            k = k + 1;
        }
        (n, first)
    }

    /// A cell with no region must meet no region at all. Grid coordinates; `row_y` holds every row
    /// boundary.
    pub fn no_region_overlap(&self, gx: i32, gy: i32, gx_end: i32, gy_end: i32, site_width: i32, row_y: &[i32], core_y_max: i32) -> (r: bool)
        ensures
            r == match query_box(gx as int, gy as int, gx_end as int, gy_end as int, site_width as int, row_y@, core_y_max as int) {
                None => false,
                Some(q) => meets_none(self.rtree@, q),
            },
    {
        match query_at(gx as i64, gy as i64, gx_end as i64, gy_end as i64, site_width, row_y, core_y_max) {
            None => false,
            Some(q) => self.meeting(&q).0 == 0,
        }
    }

    fn overlap_at(&self, inst: &str, gx: i64, gy: i64, gx_end: i64, gy_end: i64, site_width: i32, row_y: &[i32], core_y_max: i32) -> (r: bool)
        ensures
            r == self.overlap_allowed(inst@, gx as int, gy as int, gx_end as int, gy_end as int, site_width as int, row_y@, core_y_max as int),
    {
        match query_at(gx, gy, gx_end, gy_end, site_width, row_y, core_y_max) {
            None => false,
            Some(q) => {
                let (n, first) = self.meeting(&q);
                let ghost qq = (q.0 as int, q.1 as int, q.2 as int, q.3 as int);
                if look_up(&self.assigned, inst).is_some() {
                    if n != 1 {
                        proof {
                            if meets_one_covering(self.rtree@, qq) {
                                let k = choose|k: int| {
                                    &&& 0 <= k < self.rtree@.len()
                                    &&& meets(#[trigger] self.rtree@[k], qq)
                                    &&& covers_query(self.rtree@[k], qq)
                                    &&& forall|j: int| 0 <= j < self.rtree@.len() && j != k ==> !meets(#[trigger] self.rtree@[j], qq)
                                };
                                assert(meets(self.rtree@[k], qq));
                                if n > 1 {
                                    let (a, b) = choose|a: int, b: int| 0 <= a < b < self.rtree@.len() && meets(#[trigger] self.rtree@[a], qq) && meets(#[trigger] self.rtree@[b], qq);
                                    assert(meets(self.rtree@[a], qq) && meets(self.rtree@[b], qq));
                                }
                            }
                        }
                        false
                    } else {
                        let b = self.rtree[first];
                        let ok: bool = q.0 >= b.0 as i128 && q.1 >= b.1 as i128 && q.2 <= b.2 as i128 && q.3 <= b.3 as i128;
                        proof {
                            if ok {
                                assert(meets(self.rtree@[first as int], qq));
                                assert(meets_one_covering(self.rtree@, qq));
                            } else if meets_one_covering(self.rtree@, qq) {
                                let k = choose|k: int| {
                                    &&& 0 <= k < self.rtree@.len()
                                    &&& meets(#[trigger] self.rtree@[k], qq)
                                    &&& covers_query(self.rtree@[k], qq)
                                    &&& forall|j: int| 0 <= j < self.rtree@.len() && j != k ==> !meets(#[trigger] self.rtree@[j], qq)
                                };
                                assert(k == first);
                            }
                        }
                        ok
                    }
                } else {
                    n == 0
                }
            },
        }
    }

    /// Does a footprint in grid coordinates respect the regions?
    pub fn overlap_ok(&self, inst: &str, gx: i32, gy: i32, gx_end: i32, gy_end: i32, site_width: i32, row_y: &[i32], core_y_max: i32) -> (r: bool)
        ensures
            r == self.overlap_allowed(inst@, gx as int, gy as int, gx_end as int, gy_end as int, site_width as int, row_y@, core_y_max as int),
    {
        self.overlap_at(inst, gx as i64, gy as i64, gx_end as i64, gy_end as i64, site_width, row_y, core_y_max)
    }

    /// Whether a cell of size `w` by `h` at `(x, y)` is placed as its region asks.
    pub open spec fn well_placed(&self, name: Seq<char>, x: int, y: int, w: int, h: int, site_width: int, row_y: Seq<i32>, core_y_max: int) -> bool {
        match looked_up(self.assigned@, name, self.assigned@.len() as int) {
            None => true,
            Some(b) => {
                &&& x >= b.0 && y >= b.1 && x + w <= b.2 && y + h <= b.3
                &&& site_width > 0 && h > 0
                &&& self.overlap_allowed(name, trunc_quot(x, site_width), trunc_quot(y, h), trunc_quot(x + w, site_width), trunc_quot(y + h, h), site_width, row_y, core_y_max)
            },
        }
    }

    /// Is a cell of size `w` by `h` at `(x, y)` placed as its region asks? A cell with no region
    /// always is. Else its region must contain its box, and its footprint must meet exactly one
    /// region box, which covers it. Rows are counted in cell heights.
    pub fn check(&self, inst: &str, x: i32, y: i32, w: i32, h: i32, site_width: i32, row_y: &[i32], core_y_max: i32) -> (r: bool)
        ensures
            r == self.well_placed(inst@, x as int, y as int, w as int, h as int, site_width as int, row_y@, core_y_max as int),
    {
        let b = match look_up(&self.assigned, inst) {
            None => return true,
            Some(b) => b,
        };
        let x_end: i64 = x as i64 + w as i64;
        let y_end: i64 = y as i64 + h as i64;
        if !(x >= b.0 && y >= b.1 && x_end <= b.2 as i64 && y_end <= b.3 as i64) {
            return false;
        }
        if site_width <= 0 || h <= 0 {
            return false;
        }
        let sw: i64 = site_width as i64;
        self.overlap_at(inst, div_trunc(x as i64, sw), div_trunc(y as i64, h as i64), div_trunc(x_end, sw), div_trunc(y_end, h as i64), site_width, row_y, core_y_max)
    }
}

// ── the squares of a region ──────────────────────────────────────────────────────────────────

/// The box of a square, core-relative.
pub open spec fn square_box(g: Grid, x: int, y: int) -> (int, int, int, int) {
    (x * g.site_width, g.row_y@[y] as int, (x + 1) * g.site_width, g.row_y@[y + 1] as int)
}

/// Whether a box lies across the edge of a region: they overlap, and it is not inside.
pub open spec fn straddles(r: Box4, s: (int, int, int, int)) -> bool {
    &&& !(s.0 >= r.0 && s.2 <= r.2 && s.1 >= r.1 && s.3 <= r.3)
    &&& r.0 < s.2 && r.2 > s.0 && r.1 < s.3 && r.3 > s.1
}

/// Whether a square lies across the edge of some region.
pub open spec fn on_an_edge(g: Grid, groups: Seq<Group>, x: int, y: int) -> bool {
    exists|i: int, k: int| 0 <= i < groups.len() && 0 <= k < groups[i].rects@.len() && straddles(#[trigger] groups[i].rects@[k], square_box(g, x, y))
}

/// The remainder of a division toward zero.
pub open spec fn trunc_rem(a: int, b: int) -> int {
    a - trunc_quot(a, b) * b
}

/// How much of a square a box claims, in DBU of width: a whole site within the box, less what the
/// fractions at its edges take away. The left fraction counts against the first whole column; the
/// right one, being negative, adds to the last.
pub open spec fn claim(g: Grid, r: Box4, x: int, y: int) -> int {
    let w = within(g, r);
    let sw = g.site_width as int;
    if w.1 <= y < w.3 {
        (if w.0 <= x < w.2 { sw } else { 0 }) - (if x == w.0 { trunc_rem(r.0 as int, sw) } else { 0 })
            - (if x == w.2 - 1 { trunc_rem(sw - r.2, sw) } else { 0 })
    } else {
        0
    }
}

/// How much of a square the first `n` boxes claim.
pub open spec fn claim_sum(g: Grid, rects: Seq<Box4>, n: int, x: int, y: int) -> int
    decreases n,
{
    if n <= 0 { 0 } else { claim_sum(g, rects, n - 1, x, y) + claim(g, rects[n - 1], x, y) }
}

/// Whether some box wholly covers a square.
pub open spec fn wholly_covered(g: Grid, rects: Seq<Box4>, x: int, y: int) -> bool {
    exists|k: int| 0 <= k < rects.len() && in_box(within(g, #[trigger] rects[k]), x, y)
}

/// What of a square the first `n` groups claim. A group without cells claims nothing; a covered
/// square that is claimed in part starts anew.
pub open spec fn claimed_by(g: Grid, groups: Seq<Group>, n: int, x: int, y: int) -> int
    decreases n,
{
    if n <= 0 {
        0
    } else {
        let u0 = claimed_by(g, groups, n - 1, x, y);
        let gr = groups[n - 1];
        if gr.cells@.len() == 0 {
            u0
        } else {
            let u = u0 + claim_sum(g, gr.rects@, gr.rects@.len() as int, x, y);
            if wholly_covered(g, gr.rects@, x, y) && 0 < u < g.site_width { 0 } else { u }
        }
    }
}

/// A square once the first `n` groups have claimed theirs: blocked on a region's edge; a square
/// claimed whole is valid and the group's; one claimed in part is not valid.
pub open spec fn grouped_pixel(g: Grid, groups: Seq<Group>, n: int, x: int, y: int) -> Pixel
    decreases n,
{
    if n <= 0 {
        if on_an_edge(g, groups, x, y) { Pixel { is_valid: false, ..g.px(x, y) } } else { g.px(x, y) }
    } else {
        let p = grouped_pixel(g, groups, n - 1, x, y);
        let gr = groups[n - 1];
        if gr.cells@.len() == 0 {
            p
        } else {
            let u = claimed_by(g, groups, n - 1, x, y) + claim_sum(g, gr.rects@, gr.rects@.len() as int, x, y);
            if !wholly_covered(g, gr.rects@, x, y) {
                p
            } else if u == g.site_width {
                Pixel { group: Some((n - 1) as usize), is_valid: true, ..p }
            } else if 0 < u < g.site_width {
                Pixel { is_valid: false, ..p }
            } else {
                p
            }
        }
    }
}

/// The squares each box of a group wholly covers.
fn withins(grid: &Grid, groups: &[Group]) -> (r: Vec<Vec<(i64, i64, i64, i64)>>)
    requires
        grid.wf(),
    ensures
        r@.len() == groups@.len(),
        forall|i: int| 0 <= i < r@.len() ==> (#[trigger] r@[i])@.len() == groups@[i].rects@.len(),
        forall|i: int, k: int| 0 <= i < r@.len() && 0 <= k < r@[i]@.len() ==> ({
            let b = #[trigger] r@[i]@[k];
            (b.0 as int, b.1 as int, b.2 as int, b.3 as int) == within(*grid, groups@[i].rects@[k])
        }),
{
    let mut out: Vec<Vec<(i64, i64, i64, i64)>> = Vec::new();
    let mut i: usize = 0;
    while i < groups.len()
        invariant
            grid.wf(),
            i <= groups@.len(),
            out@.len() == i,
            forall|a: int| 0 <= a < i ==> (#[trigger] out@[a])@.len() == groups@[a].rects@.len(),
            forall|a: int, k: int| 0 <= a < i && 0 <= k < out@[a]@.len() ==> ({
                let b = #[trigger] out@[a]@[k];
                (b.0 as int, b.1 as int, b.2 as int, b.3 as int) == within(*grid, groups@[a].rects@[k])
            }),
        decreases groups@.len() - i,
    {
        let rects = &groups[i].rects;
        let mut v: Vec<(i64, i64, i64, i64)> = Vec::new();
        let mut k: usize = 0;
        while k < rects.len()
            invariant
                grid.wf(),
                k <= rects@.len(),
                v@.len() == k,
                forall|j: int| 0 <= j < k ==> ({
                    let b = #[trigger] v@[j];
                    (b.0 as int, b.1 as int, b.2 as int, b.3 as int) == within(*grid, rects@[j])
                }),
            decreases rects@.len() - k,
        {
            v.push(grid_within(grid, &rects[k]));
            k = k + 1;
        }
        out.push(v);
        i = i + 1;
    }
    out
}

/// Does a square lie across the edge of some region?
fn square_on_an_edge(grid: &Grid, groups: &[Group], x: usize, y: usize) -> (r: bool)
    requires
        grid.wf(),
        grid.inside(x as int, y as int),
    ensures
        r == on_an_edge(*grid, groups@, x as int, y as int),
{
    proof {
        assert(0 <= x * grid.site_width <= 0x7fff_ffff * 0x7fff_ffff) by (nonlinear_arith)
            requires 0 <= x <= 0x7fff_ffff, 0 < grid.site_width <= 0x7fff_ffff;
        assert((x + 1) * grid.site_width == x * grid.site_width + grid.site_width) by (nonlinear_arith);
    }
    let x0: i64 = x as i64 * grid.site_width as i64;
    let x1: i64 = x0 + grid.site_width as i64;
    let y0: i64 = grid.row_y[y] as i64;
    let y1: i64 = grid.row_y[y + 1] as i64;
    let ghost s = square_box(*grid, x as int, y as int);
    let mut i: usize = 0;
    while i < groups.len()
        invariant
            i <= groups@.len(),
            s == (x0 as int, y0 as int, x1 as int, y1 as int),
            s == square_box(*grid, x as int, y as int),
            forall|a: int, k: int| 0 <= a < i && 0 <= k < groups@[a].rects@.len() ==> !straddles(#[trigger] groups@[a].rects@[k], s),
        decreases groups@.len() - i,
    {
        let rects = &groups[i].rects;
        let mut k: usize = 0;
        while k < rects.len()
            invariant
                i < groups@.len(),
                rects == &groups@[i as int].rects,
                k <= rects@.len(),
                s == (x0 as int, y0 as int, x1 as int, y1 as int),
                s == square_box(*grid, x as int, y as int),
                forall|j: int| 0 <= j < k ==> !straddles(#[trigger] rects@[j], s),
            decreases rects@.len() - k,
        {
            let r = rects[k];
            let inside: bool = x0 >= r.0 as i64 && x1 <= r.2 as i64 && y0 >= r.1 as i64 && y1 <= r.3 as i64;
            let overlap: bool = (r.0 as i64) < x1 && r.2 as i64 > x0 && (r.1 as i64) < y1 && r.3 as i64 > y0;
            if !inside && overlap {
                assert(straddles(groups@[i as int].rects@[k as int], s));
                return true;
            }
            k = k + 1;
        }
        i = i + 1;
    }
    false
}

/// The remainder of a division toward zero.
fn rem_trunc(a: i64, b: i64) -> (r: i64)
    requires
        0 < b <= 0x7fff_ffff,
        -0x2_0000_0000 <= a <= 0x2_0000_0000,
    ensures
        r == trunc_rem(a as int, b as int),
        -b < r < b,
{
    let q: i64 = div_trunc(a, b);
    proof {
        if a >= 0 {
            crate::arith::lemma_quot_bound(a as int, b as int);
        } else {
            let m = -(a as int);
            crate::arith::lemma_quot_bound(m, b as int);
            assert(q * b == -((m / b as int) * b)) by (nonlinear_arith)
                requires q == -(m / b as int);
        }
    }
    a - q * b
}

/// How much of a square a box claims.
fn claim_at(grid: &Grid, r: &Box4, w: &(i64, i64, i64, i64), x: i64, y: i64) -> (c: i128)
    requires
        grid.wf(),
        (w.0 as int, w.1 as int, w.2 as int, w.3 as int) == within(*grid, *r),
        w.2 > i64::MIN,
    ensures
        c == claim(*grid, *r, x as int, y as int),
        -0x3_0000_0000 <= c <= 0x3_0000_0000,
{
    let sw: i64 = grid.site_width as i64;
    if !(w.1 <= y && y < w.3) {
        return 0;
    }
    let mut c: i64 = 0;
    if w.0 <= x && x < w.2 {
        c = c + sw;
    }
    if x == w.0 {
        c = c - rem_trunc(r.0 as i64, sw);
    }
    if x == w.2 - 1 {
        c = c - rem_trunc(sw - r.2 as i64, sw);
    }
    c as i128
}

/// A square once all groups have claimed theirs.
fn regroup_pixel(grid: &Grid, groups: &[Group], ws: &Vec<Vec<(i64, i64, i64, i64)>>, x: usize, y: usize, p0: Pixel) -> (p: Pixel)
    requires
        grid.wf(),
        grid.inside(x as int, y as int),
        p0 == grid.px(x as int, y as int),
        groups@.len() <= 0x7fff_ffff,
        forall|i: int| 0 <= i < groups@.len() ==> (#[trigger] groups@[i]).rects@.len() <= 0x7fff_ffff,
        ws@.len() == groups@.len(),
        forall|i: int| 0 <= i < ws@.len() ==> (#[trigger] ws@[i])@.len() == groups@[i].rects@.len(),
        forall|i: int, k: int| 0 <= i < ws@.len() && 0 <= k < ws@[i]@.len() ==> ({
            let b = #[trigger] ws@[i]@[k];
            (b.0 as int, b.1 as int, b.2 as int, b.3 as int) == within(*grid, groups@[i].rects@[k])
        }),
    ensures
        p == grouped_pixel(*grid, groups@, groups@.len() as int, x as int, y as int),
{
    let mut p = p0;
    if square_on_an_edge(grid, groups, x, y) {
        p.is_valid = false;
    }
    let sw: i128 = grid.site_width as i128;
    let mut u: i128 = 0;
    let mut i: usize = 0;
    while i < groups.len()
        invariant
            grid.wf(),
            sw == grid.site_width,
            i <= groups@.len(),
            x <= 0x7fff_ffff,
            y <= 0x7fff_ffff,
            groups@.len() <= 0x7fff_ffff,
            forall|a: int| 0 <= a < groups@.len() ==> (#[trigger] groups@[a]).rects@.len() <= 0x7fff_ffff,
            ws@.len() == groups@.len(),
            forall|a: int| 0 <= a < ws@.len() ==> (#[trigger] ws@[a])@.len() == groups@[a].rects@.len(),
            forall|a: int, k: int| 0 <= a < ws@.len() && 0 <= k < ws@[a]@.len() ==> ({
                let b = #[trigger] ws@[a]@[k];
                (b.0 as int, b.1 as int, b.2 as int, b.3 as int) == within(*grid, groups@[a].rects@[k])
            }),
            u == claimed_by(*grid, groups@, i as int, x as int, y as int),
            -(i * 0x2_0000_0000_0000_0000) <= u <= i * 0x2_0000_0000_0000_0000,
            p == grouped_pixel(*grid, groups@, i as int, x as int, y as int),
        decreases groups@.len() - i,
    {
        let gr = &groups[i];
        if gr.cells.len() > 0 {
            let rects = &gr.rects;
            let w = &ws[i];
            let mut sum: i128 = 0;
            let mut covered: bool = false;
            let mut k: usize = 0;
            while k < rects.len()
                invariant
                    grid.wf(),
                    k <= rects@.len(),
                    x <= 0x7fff_ffff,
                    y <= 0x7fff_ffff,
                    rects@.len() <= 0x7fff_ffff,
                    w@.len() == rects@.len(),
                    forall|j: int| 0 <= j < w@.len() ==> ({
                        let b = #[trigger] w@[j];
                        (b.0 as int, b.1 as int, b.2 as int, b.3 as int) == within(*grid, rects@[j])
                    }),
                    sum == claim_sum(*grid, rects@, k as int, x as int, y as int),
                    -(k * 0x3_0000_0000) <= sum <= k * 0x3_0000_0000,
                    covered == exists|j: int| 0 <= j < k && in_box(within(*grid, #[trigger] rects@[j]), x as int, y as int),
                decreases rects@.len() - k,
            {
                let b = w[k];
                let ghost r = rects@[k as int];
                proof {
                    assert((b.0 as int, b.1 as int, b.2 as int, b.3 as int) == within(*grid, r));
                    let sw = grid.site_width as int;
                    assert(-0x8000_0000 <= r.2 as int / sw) by (nonlinear_arith)
                        requires sw > 0, -0x8000_0000 <= r.2 <= 0x7fff_ffff;
                }
                sum = sum + claim_at(grid, &rects[k], &b, x as i64, y as i64);
                if b.0 <= x as i64 && (x as i64) < b.2 && b.1 <= y as i64 && (y as i64) < b.3 {
                    assert(in_box(within(*grid, rects@[k as int]), x as int, y as int));
                    covered = true;
                }
                k = k + 1;
            }
            u = u + sum;
            if covered {
                if u == sw {
                    p.group = Some(i);
                    p.is_valid = true;
                } else if u > 0 && u < sw {
                    u = 0;
                    p.is_valid = false;
                }
            }
        }
        i = i + 1;
    }
    p
}

/// Block the squares that lie across a region's edge, and give the squares that a region claims
/// whole to its group.
pub fn group_init_pixels(grid: &mut Grid, groups: &[Group])
    requires
        old(grid).wf(),
        groups@.len() <= 0x7fff_ffff,
        forall|i: int| 0 <= i < groups@.len() ==> (#[trigger] groups@[i]).rects@.len() <= 0x7fff_ffff,
    ensures
        final(grid).wf(),
        final(grid).same_frame(*old(grid)),
        forall|gx: int, gy: int| #![trigger final(grid).px(gx, gy)] old(grid).inside(gx, gy) ==>
            final(grid).px(gx, gy) == grouped_pixel(*old(grid), groups@, groups@.len() as int, gx, gy),
{
    let ghost g0 = *grid;
    let ws = withins(grid, groups);
    let rows: usize = grid.row_count;
    let cols: usize = grid.row_site_count;
    let mut fresh: Vec<Vec<Pixel>> = Vec::new();
    let mut y: usize = 0;
    while y < rows
        invariant
            *grid == g0,
            g0.wf(),
            rows == g0.row_count,
            cols == g0.row_site_count,
            y <= rows,
            groups@.len() <= 0x7fff_ffff,
            forall|i: int| 0 <= i < groups@.len() ==> (#[trigger] groups@[i]).rects@.len() <= 0x7fff_ffff,
            ws@.len() == groups@.len(),
            forall|i: int| 0 <= i < ws@.len() ==> (#[trigger] ws@[i])@.len() == groups@[i].rects@.len(),
            forall|i: int, k: int| 0 <= i < ws@.len() && 0 <= k < ws@[i]@.len() ==> ({
                let b = #[trigger] ws@[i]@[k];
                (b.0 as int, b.1 as int, b.2 as int, b.3 as int) == within(g0, groups@[i].rects@[k])
            }),
            fresh@.len() == y,
            forall|b: int| 0 <= b < y ==> (#[trigger] fresh@[b])@.len() == cols,
            forall|a: int, b: int| 0 <= b < y && 0 <= a < cols ==> #[trigger] fresh@[b]@[a] == grouped_pixel(g0, groups@, groups@.len() as int, a, b),
        decreases rows - y,
    {
        let mut row: Vec<Pixel> = Vec::new();
        let mut x: usize = 0;
        while x < cols
            invariant
                *grid == g0,
                g0.wf(),
                rows == g0.row_count,
                cols == g0.row_site_count,
                y < rows,
                x <= cols,
                groups@.len() <= 0x7fff_ffff,
                forall|i: int| 0 <= i < groups@.len() ==> (#[trigger] groups@[i]).rects@.len() <= 0x7fff_ffff,
                ws@.len() == groups@.len(),
                forall|i: int| 0 <= i < ws@.len() ==> (#[trigger] ws@[i])@.len() == groups@[i].rects@.len(),
                forall|i: int, k: int| 0 <= i < ws@.len() && 0 <= k < ws@[i]@.len() ==> ({
                    let b = #[trigger] ws@[i]@[k];
                    (b.0 as int, b.1 as int, b.2 as int, b.3 as int) == within(g0, groups@[i].rects@[k])
                }),
                row@.len() == x,
                forall|a: int| 0 <= a < x ==> #[trigger] row@[a] == grouped_pixel(g0, groups@, groups@.len() as int, a, y as int),
            decreases cols - x,
        {
            let p0 = grid.pixels[y][x];
            row.push(regroup_pixel(grid, groups, &ws, x, y, p0));
            x = x + 1;
        }
        fresh.push(row);
        y = y + 1;
    }
    grid.pixels = fresh;
}

// ── fences ───────────────────────────────────────────────────────────────────────────────────

/// A region of the design, with absolute boundaries.
#[derive(Debug)]
pub struct RegionInput {
    pub name: String,
    pub boundaries: Vec<Box4>,
}

/// A cell with the region it names itself and the one its group names, each empty where there is
/// none.
#[derive(Debug)]
pub struct FenceCell {
    pub name: String,
    pub region: String,
    pub group_region: String,
}

/// Every region's boxes in grid units, and the fence of each cell.
#[derive(Debug)]
pub struct Fences {
    pub rects: Vec<Vec<Box4>>,
    /// Each cell's fence; the last entry of a name counts, and a cell absent here is in the default
    /// region.
    pub cell_fence: Vec<(String, usize)>,
}

/// A boundary in grid units: X toward zero to a site, the lower Y up to a row boundary, the upper Y
/// down to one. Not clipped.
pub open spec fn fence_box(g: Grid, b: Box4) -> Box4 {
    let sw = g.site_width as int;
    (
        trunc_quot(b.0 - g.core.0, sw) as i32,
        g.end_row(b.1 - g.core.1) as i32,
        trunc_quot(b.2 - g.core.0, sw) as i32,
        g.boundary_down(b.3 - g.core.1, g.row_count as int) as i32,
    )
}

/// The boundary is near enough to the core for the coordinate type.
pub open spec fn fence_fits(g: Grid, b: Box4) -> bool {
    &&& i32::MIN <= b.0 - g.core.0 <= i32::MAX
    &&& i32::MIN <= b.1 - g.core.1 <= i32::MAX
    &&& i32::MIN <= b.2 - g.core.0 <= i32::MAX
    &&& i32::MIN <= b.3 - g.core.1 <= i32::MAX
}

/// The regions below `n` that have boundaries.
pub open spec fn fenced(regions: Seq<RegionInput>, n: int) -> Seq<int>
    decreases n,
{
    if n <= 0 {
        Seq::empty()
    } else {
        let s = fenced(regions, n - 1);
        if regions[n - 1].boundaries@.len() > 0 { s.push(n - 1) } else { s }
    }
}

/// The last of the first `n` fences whose region has this name.
pub open spec fn fence_named(regions: Seq<RegionInput>, ix: Seq<int>, name: Seq<char>, n: int) -> Option<int>
    decreases n,
{
    if n <= 0 {
        None
    } else if regions[ix[n - 1]].name@ == name {
        Some(n - 1)
    } else {
        fence_named(regions, ix, name, n - 1)
    }
}

/// The region a cell asks for: its own, else its group's.
pub open spec fn asked_region(c: FenceCell) -> Seq<char> {
    if c.region@.len() > 0 { c.region@ } else { c.group_region@ }
}

/// The fence entries of the first `n` cells.
pub open spec fn fence_entries(regions: Seq<RegionInput>, cells: Seq<FenceCell>, n: int) -> Seq<(String, usize)>
    decreases n,
{
    if n <= 0 {
        Seq::empty()
    } else {
        let s = fence_entries(regions, cells, n - 1);
        let ix = fenced(regions, regions.len() as int);
        match fence_named(regions, ix, asked_region(cells[n - 1]), ix.len() as int) {
            Some(f) => s.push((cells[n - 1].name, f as usize)),
            None => s,
        }
    }
}

impl Fences {
    /// Whether a footprint of `w` by `h` at `(x, y)` lies inside one box of fence `fi`.
    pub open spec fn holds(&self, fi: int, x: int, y: int, w: int, h: int) -> bool {
        exists|k: int| 0 <= k < self.rects@[fi]@.len() && ({
            let r = #[trigger] self.rects@[fi]@[k];
            x >= r.0 && y >= r.1 && x + w <= r.2 && y + h <= r.3
        })
    }

    /// Every region with boundaries becomes a fence; each cell gets the fence of the region it
    /// names, or else of the one its group names.
    pub fn build(regions: &[RegionInput], grid: &Grid, cells: &[FenceCell]) -> (r: Fences)
        requires
            grid.wf(),
            forall|i: int, k: int| 0 <= i < regions@.len() && 0 <= k < regions@[i].boundaries@.len() ==> fence_fits(*grid, #[trigger] regions@[i].boundaries@[k]),
        ensures
            ({
                let ix = fenced(regions@, regions@.len() as int);
                &&& r.rects@.len() == ix.len()
                &&& forall|f: int| 0 <= f < ix.len() ==> (#[trigger] r.rects@[f])@ == Seq::new(regions@[ix[f]].boundaries@.len(), |k: int| fence_box(*grid, regions@[ix[f]].boundaries@[k]))
                &&& r.cell_fence@ == fence_entries(regions@, cells@, cells@.len() as int)
            }),
    {
        let mut rects: Vec<Vec<Box4>> = Vec::new();
        let mut kept: Vec<usize> = Vec::new();
        let sw: i64 = grid.site_width as i64;
        let core = grid.core;
        let mut i: usize = 0;
        while i < regions.len()
            invariant
                grid.wf(),
                sw == grid.site_width,
                core == grid.core,
                i <= regions@.len(),
                forall|a: int, k: int| 0 <= a < regions@.len() && 0 <= k < regions@[a].boundaries@.len() ==> fence_fits(*grid, #[trigger] regions@[a].boundaries@[k]),
                kept@.len() == fenced(regions@, i as int).len(),
                rects@.len() == kept@.len(),
                forall|f: int| 0 <= f < kept@.len() ==> #[trigger] kept@[f] == fenced(regions@, i as int)[f] && kept@[f] < i,
                forall|f: int| 0 <= f < kept@.len() ==> (#[trigger] rects@[f])@ == Seq::new(regions@[kept@[f] as int].boundaries@.len(), |k: int| fence_box(*grid, regions@[kept@[f] as int].boundaries@[k])),
            decreases regions@.len() - i,
        {
            let d = &regions[i];
            if d.boundaries.len() > 0 {
                let ghost kept0 = kept@;
                let ghost rects0 = rects@;
                let mut v: Vec<Box4> = Vec::new();
                let mut k: usize = 0;
                while k < d.boundaries.len()
                    invariant
                        grid.wf(),
                        sw == grid.site_width,
                        core == grid.core,
                        k <= d.boundaries@.len(),
                        forall|j: int| 0 <= j < d.boundaries@.len() ==> fence_fits(*grid, #[trigger] d.boundaries@[j]),
                        v@.len() == k,
                        forall|j: int| 0 <= j < k ==> #[trigger] v@[j] == fence_box(*grid, d.boundaries@[j]),
                    decreases d.boundaries@.len() - k,
                {
                    let b = d.boundaries[k];
                    assert(fence_fits(*grid, d.boundaries@[k as int]));
                    let x0: i64 = div_trunc(b.0 as i64 - core.0 as i64, sw);
                    let x1: i64 = div_trunc(b.2 as i64 - core.0 as i64, sw);
                    proof {
                        let a0 = b.0 - core.0;
                        let a1 = b.2 - core.0;
                        crate::arith::lemma_quot_bound(if a0 >= 0 { a0 } else { -a0 }, sw as int);
                        crate::arith::lemma_quot_bound(if a1 >= 0 { a1 } else { -a1 }, sw as int);
                    }
                    let y0: usize = grid.grid_end_y_dbu(b.1 - core.1);
                    let y1: usize = grid.grid_boundary_down_y(b.3 - core.1);
                    v.push((x0 as i32, y0 as i32, x1 as i32, y1 as i32));
                    k = k + 1;
                }
                assert(v@ =~= Seq::new(d.boundaries@.len(), |k: int| fence_box(*grid, d.boundaries@[k])));
                rects.push(v);
                kept.push(i);
                assert forall|f: int| 0 <= f < kept@.len() implies #[trigger] kept@[f] == fenced(regions@, i + 1)[f] && kept@[f] < i + 1 by {
                    if f < kept0.len() {
                        assert(kept@[f] == kept0[f]);
                    }
                }
                assert forall|f: int| 0 <= f < kept@.len() implies (#[trigger] rects@[f])@ == Seq::new(regions@[kept@[f] as int].boundaries@.len(), |k: int| fence_box(*grid, regions@[kept@[f] as int].boundaries@[k])) by {
                    if f < kept0.len() {
                        assert(rects@[f] == rects0[f]);
                        assert(kept@[f] == kept0[f]);
                    }
                }
            }
            i = i + 1;
        }
        let ghost ix = fenced(regions@, regions@.len() as int);
        let mut cell_fence: Vec<(String, usize)> = Vec::new();
        let mut c: usize = 0;
        while c < cells.len()
            invariant
                c <= cells@.len(),
                ix == fenced(regions@, regions@.len() as int),
                kept@.len() == ix.len(),
                forall|f: int| 0 <= f < kept@.len() ==> #[trigger] kept@[f] == ix[f] && kept@[f] < regions@.len(),
                cell_fence@ == fence_entries(regions@, cells@, c as int),
            decreases cells@.len() - c,
        {
            let name = if cells[c].region.as_str().is_empty() { cells[c].group_region.as_str() } else { cells[c].region.as_str() };
            assert(name@ == asked_region(cells@[c as int]));
            let mut n: usize = kept.len();
            let mut found: Option<usize> = None;
            while n > 0 && found.is_none()
                invariant
                    n <= kept@.len(),
                    kept@.len() == ix.len(),
                    forall|f: int| 0 <= f < kept@.len() ==> #[trigger] kept@[f] == ix[f] && kept@[f] < regions@.len(),
                    found is None ==> fence_named(regions@, ix, name@, n as int) == fence_named(regions@, ix, name@, ix.len() as int),
                    found matches Some(f) ==> fence_named(regions@, ix, name@, ix.len() as int) == Some(f as int),
                decreases n,
            {
                if same_text(regions[kept[n - 1]].name.as_str(), name) {
                    found = Some(n - 1);
                }
                n = n - 1;
            }
            if let Some(f) = found {
                cell_fence.push((cells[c].name.clone(), f));
            }
            c = c + 1;
        }
        Fences { rects, cell_fence }
    }

    /// Are there no fences?
    pub fn is_empty(&self) -> (r: bool)
        ensures
            r == (self.rects@.len() == 0),
    {
        self.rects.len() == 0
    }

    /// Does the footprint lie inside at least one box of fence `fi`?
    pub fn contains(&self, fi: usize, x: i32, y: i32, w: i32, h: i32) -> (r: bool)
        requires
            fi < self.rects@.len(),
        ensures
            r == self.holds(fi as int, x as int, y as int, w as int, h as int),
    {
        let v = &self.rects[fi];
        let x1: i64 = x as i64 + w as i64;
        let y1: i64 = y as i64 + h as i64;
        let mut k: usize = 0;
        while k < v.len()
            invariant
                fi < self.rects@.len(),
                v == &self.rects@[fi as int],
                x1 == x + w,
                y1 == y + h,
                k <= v@.len(),
                forall|j: int| 0 <= j < k ==> !({
                    let r = #[trigger] v@[j];
                    x >= r.0 && y >= r.1 && x + w <= r.2 && y + h <= r.3
                }),
            decreases v@.len() - k,
        {
            let r = v[k];
            if x >= r.0 && y >= r.1 && x1 <= r.2 as i64 && y1 <= r.3 as i64 {
                assert(self.rects@[fi as int]@[k as int] == r);
                return true;
            }
            k = k + 1;
        }
        false
    }

    /// A fenced cell must lie inside its fence. A cell of the default region must not lie inside
    /// any fence; one across a fence's edge passes.
    pub fn respects(&self, cell: &str, x: i32, y: i32, w: i32, h: i32) -> (r: bool)
        requires
            looked_up(self.cell_fence@, cell@, self.cell_fence@.len() as int) matches Some(f) ==> f < self.rects@.len(),
        ensures
            r == match looked_up(self.cell_fence@, cell@, self.cell_fence@.len() as int) {
                Some(f) => self.holds(f as int, x as int, y as int, w as int, h as int),
                None => forall|f: int| 0 <= f < self.rects@.len() ==> !#[trigger] self.holds(f, x as int, y as int, w as int, h as int),
            },
    {
        match look_up(&self.cell_fence, cell) {
            Some(f) => self.contains(f, x, y, w, h),
            None => {
                let mut f: usize = 0;
                while f < self.rects.len()
                    invariant
                        f <= self.rects@.len(),
                        looked_up(self.cell_fence@, cell@, self.cell_fence@.len() as int) is None,
                        forall|j: int| 0 <= j < f ==> !#[trigger] self.holds(j, x as int, y as int, w as int, h as int),
                    decreases self.rects@.len() - f,
                {
                    if self.contains(f, x, y, w, h) {
                        assert(self.holds(f as int, x as int, y as int, w as int, h as int));
                        return false;
                    }
                    f = f + 1;
                }
                true
            },
        }
    }
}

} // verus!
