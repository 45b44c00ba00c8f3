//! How far a cell looks for a place, and in which order the places are offered.

use vstd::prelude::*;
use crate::arith::{dist, distance, imax, imin, max64, min64};
use crate::negotiate::agrees1;

verus! {

// ── rows ─────────────────────────────────────────────────────────────────────────────────────

/// One side of the vertical walk.
pub struct Side {
    pub step: int,
    /// Rows still to be found.
    pub quota: int,
    /// How far the side may go.
    pub cap: int,
    pub closed: bool,
    /// The side met its limit or a wall, and takes no more quota.
    pub walled: bool,
    pub found: Seq<i32>,
}

/// What the vertical walk is about.
pub struct Walk {
    pub seed: int,
    pub height: int,
    pub grid_h: int,
    /// Rows each side looks for.
    pub count: int,
    /// How far each side may go.
    pub max_scan: int,
    /// How far a side may go that was given the other side's quota.
    pub extended_cap: int,
    pub allow_extension: bool,
    /// The rows with sites.
    pub has_sites: spec_fn(int) -> bool,
    /// The rows that can host the cell.
    pub usable: spec_fn(int) -> bool,
}

impl Walk {
    /// The cell cannot start in row `r`: it would leave the die or meet a row without sites.
    pub open spec fn wall(self, r: int) -> bool {
        r < 0 || r + self.height > self.grid_h || exists|dy: int| 0 <= dy < self.height && !(#[trigger] (self.has_sites)(r + dy))
    }

    pub open spec fn start_side(self) -> Side {
        Side { step: 0, quota: self.count, cap: self.max_scan, closed: false, walled: false, found: Seq::empty() }
    }

    /// One step of side `s`, in direction `dir`, with side `o` ready to take its quota.
    pub open spec fn step(self, dir: int, s: Side, o: Side) -> (Side, Side) {
        if s.closed {
            (s, o)
        } else if s.quota == 0 {
            (Side { closed: true, ..s }, o)
        } else if s.step >= s.cap || self.wall(self.seed + dir * (s.step + 1)) {
            if self.allow_extension && s.quota > 0 && !o.walled {
                (
                    Side { closed: true, walled: true, quota: 0, ..s },
                    Side { quota: o.quota + s.quota, cap: self.extended_cap, closed: false, ..o },
                )
            } else {
                (Side { closed: true, walled: true, ..s }, o)
            }
        } else {
            let r = self.seed + dir * (s.step + 1);
            if (self.usable)(r) {
                (Side { step: s.step + 1, quota: s.quota - 1, found: s.found.push(r as i32), ..s }, o)
            } else {
                (Side { step: s.step + 1, ..s }, o)
            }
        }
    }

    /// A step of the upward side, then one of the downward side.
    pub open spec fn round(self, below: Side, above: Side) -> (Side, Side) {
        let (b, a) = self.step(1, below, above);
        let (a2, b2) = self.step(-1, a, b);
        (b2, a2)
    }

    /// Both sides after `n` rounds.
    pub open spec fn after(self, n: nat) -> (Side, Side)
        decreases n,
    {
        if n == 0 {
            (self.start_side(), self.start_side())
        } else {
            let (b, a) = self.after((n - 1) as nat);
            self.round(b, a)
        }
    }

    /// The rows of the window: the seed, then those found on the one side, then those found on the
    /// other.
    pub open spec fn rows(self, below: Side, above: Side) -> Seq<i32> {
        (if (self.usable)(self.seed) { seq![self.seed as i32] } else { Seq::empty() }) + below.found + above.found
    }

    /// `rows` are the rows of the window: both sides are closed after some number of rounds, and
    /// this is what they found.
    pub open spec fn gives(self, rows: Seq<i32>) -> bool {
        exists|n: nat| {
            let (b, a) = #[trigger] self.after(n);
            b.closed && a.closed && rows == self.rows(b, a)
        }
    }

    /// Rounds after both sides are closed change nothing.
    proof fn lemma_settled(self, n: nat, m: nat)
        requires
            n <= m,
            self.after(n).0.closed,
            self.after(n).1.closed,
        ensures
            self.after(m) == self.after(n),
        decreases m,
    {
        if n < m {
            self.lemma_settled(n, (m - 1) as nat);
        }
    }
}

/// The window's rows are determined: no two answers differ.
pub proof fn law_window_rows_determined(w: Walk, a: Seq<i32>, b: Seq<i32>)
    requires
        w.gives(a),
        w.gives(b),
    ensures
        a == b,
{
    let n = choose|n: nat| {
        let (x, y) = #[trigger] w.after(n);
        x.closed && y.closed && a == w.rows(x, y)
    };
    let m = choose|m: nat| {
        let (x, y) = #[trigger] w.after(m);
        x.closed && y.closed && b == w.rows(x, y)
    };
    if n <= m {
        w.lemma_settled(n, m);
    } else {
        w.lemma_settled(m, n);
    }
}

struct SideState {
    dir: i64,
    step: i64,
    quota: i64,
    cap: i64,
    closed: bool,
    walled: bool,
    found: Vec<i32>,
}

impl SideState {
    spec fn model(self) -> Side {
        Side {
            step: self.step as int,
            quota: self.quota as int,
            cap: self.cap as int,
            closed: self.closed,
            walled: self.walled,
            found: self.found@,
        }
    }

    /// Bounds that keep the arithmetic in range: `m` bounds the steps, `q` the quota.
    spec fn bounded(self, m: int, q: int) -> bool {
        &&& self.dir == 1 || self.dir == -1
        &&& 0 <= self.step <= m
        &&& self.cap <= m
        &&& -q - self.step <= self.quota <= q
        &&& self.walled ==> self.closed
        &&& self.walled ==> self.quota <= 0 || self.quota <= q
    }
}

/// Is row `r` a wall for a cell of this height?
fn is_wall<F: Fn(i32) -> bool>(r: i64, height: i32, grid_h: i32, row_has_sites: &F) -> (b: bool)
    requires
        height >= 0,
        -0x2_0000_0000 <= r <= 0x2_0000_0000,
        forall|a: i32| #[trigger] row_has_sites.requires((a,)),
    ensures
        !b ==> 0 <= r <= grid_h,
        forall|w: Walk| #![trigger agrees1(*row_has_sites, w.has_sites)]
            agrees1(*row_has_sites, w.has_sites) && w.height == height && w.grid_h == grid_h ==> b == w.wall(r as int),
{
    if r < 0 || r + height as i64 > grid_h as i64 {
        return true;
    }
    let mut dy: i32 = 0;
    while dy < height
        invariant
            0 <= r,
            r + height <= grid_h,
            0 <= dy <= height,
            forall|a: i32| #[trigger] row_has_sites.requires((a,)),
            forall|hs: spec_fn(int) -> bool| #[trigger] agrees1(*row_has_sites, hs) ==>
                forall|d: int| 0 <= d < dy ==> #[trigger] hs(r + d),
        decreases height - dy,
    {
        let ok: bool = row_has_sites(r as i32 + dy);
        if !ok {
            assert forall|w: Walk| #![trigger agrees1(*row_has_sites, w.has_sites)]
                agrees1(*row_has_sites, w.has_sites) && w.height == height && w.grid_h == grid_h implies w.wall(r as int) by {
                assert(!(w.has_sites)(r + dy));
            }
            return true;
        }
        assert forall|hs: spec_fn(int) -> bool| #[trigger] agrees1(*row_has_sites, hs) implies
            forall|d: int| 0 <= d < dy + 1 ==> #[trigger] hs(r + d) by {
            assert(hs(r + dy));
        }
        dy = dy + 1;
    }
    false
}

/// One step of side `s`, with side `o` ready to take its quota.
fn step_side<F: Fn(i32) -> bool, G: Fn(i32) -> bool>(
    s: &mut SideState, o: &mut SideState, seed_y: i32, height: i32, grid_h: i32, extended_cap: i32, allow_extension: bool,
    row_has_sites: &F, row_usable: &G, Ghost(m): Ghost<int>,
)
    requires
        height >= 0,
        m <= 0x7fff_ffff,
        extended_cap <= m,
        old(s).bounded(m, 0x1_0000_0000),
        old(o).bounded(m, 0x1_0000_0000),
        old(s).quota + old(o).quota <= 0x1_0000_0000,
        forall|a: i32| #[trigger] row_has_sites.requires((a,)),
        forall|a: i32| #[trigger] row_usable.requires((a,)),
    ensures
        final(s).bounded(m, 0x1_0000_0000),
        final(o).bounded(m, 0x1_0000_0000),
        final(s).quota + final(o).quota <= 0x1_0000_0000,
        final(s).dir == old(s).dir,
        final(o).dir == old(o).dir,
        forall|w: Walk| #![trigger agrees1(*row_has_sites, w.has_sites), agrees1(*row_usable, w.usable)]
            agrees1(*row_has_sites, w.has_sites) && agrees1(*row_usable, w.usable) && w.height == height && w.grid_h == grid_h
                && w.seed == seed_y && w.extended_cap == extended_cap && w.allow_extension == allow_extension ==>
                (final(s).model(), final(o).model()) == w.step(old(s).dir as int, old(s).model(), old(o).model()),
        // progress
        final(s).walled ==> final(s).closed,
        old(s).walled ==> final(s).walled,
        old(o).walled == final(o).walled,
        old(s).closed ==> final(s).model() == old(s).model() && final(o).model() == old(o).model(),
        old(s).step <= final(s).step,
        old(o).step == final(o).step,
        !old(s).closed && !final(s).closed ==> final(s).step == old(s).step + 1,
        !old(s).closed && final(s).closed && !final(s).walled ==> final(o).model() == old(o).model(),
        !final(s).walled ==> final(o).closed == old(o).closed,
{
    if s.closed {
        return;
    }
    if s.quota == 0 {
        s.closed = true;
        return;
    }
    let r: i64 = if s.dir == 1 { seed_y as i64 + (s.step + 1) } else { seed_y as i64 - (s.step + 1) };
    let ghost dir = s.dir as int;
    assert(r == seed_y + dir * (s.step + 1)) by (nonlinear_arith)
        requires dir == 1 || dir == -1, dir == 1 ==> r == seed_y + (s.step + 1), dir == -1 ==> r == seed_y - (s.step + 1);
    let stop: bool = s.step >= s.cap || is_wall(r, height, grid_h, row_has_sites);
    if stop {
        s.closed = true;
        s.walled = true;
        if allow_extension && s.quota > 0 && !o.walled {
            o.quota = o.quota + s.quota;
            o.cap = extended_cap as i64;
            o.closed = false;
            s.quota = 0;
        }
        return;
    }
    let use_it: bool = row_usable(r as i32);
    s.step = s.step + 1;
    if use_it {
        s.found.push(r as i32);
        s.quota = s.quota - 1;
    }
}

/// Which rows a cell's search covers: two sides walk outward from `seed_y`, each until it has found
/// its quota of usable rows, gone its distance, or met the die edge or rows without sites. What a
/// side cannot find it leaves to the other side, which then may go further.
///
/// The seed comes first, then every row found above it, then every row found below it, each side
/// from the seed outward.
pub fn vertical_window_rows<F: Fn(i32) -> bool, G: Fn(i32) -> bool>(
    seed_y: i32,
    height: i32,
    grid_h: i32,
    count_per_side: i32,
    max_scan: i32,
    extended_cap: i32,
    allow_extension: bool,
    row_has_sites: &F,
    row_usable: &G,
) -> (rows: Vec<i32>)
    requires
        height >= 0,
        forall|a: i32| #[trigger] row_has_sites.requires((a,)),
        forall|a: i32| #[trigger] row_usable.requires((a,)),
    ensures
        forall|hs: spec_fn(int) -> bool, us: spec_fn(int) -> bool|
            #![trigger agrees1(*row_has_sites, hs), agrees1(*row_usable, us)]
            agrees1(*row_has_sites, hs) && agrees1(*row_usable, us) ==> (Walk {
                seed: seed_y as int,
                height: height as int,
                grid_h: grid_h as int,
                count: count_per_side as int,
                max_scan: max_scan as int,
                extended_cap: extended_cap as int,
                allow_extension,
                has_sites: hs,
                usable: us,
            }).gives(rows@),
{
    let ghost m: int = imax(imax(max_scan as int, extended_cap as int), 0);
    let ghost walk = |hs: spec_fn(int) -> bool, us: spec_fn(int) -> bool| Walk {
        seed: seed_y as int,
        height: height as int,
        grid_h: grid_h as int,
        count: count_per_side as int,
        max_scan: max_scan as int,
        extended_cap: extended_cap as int,
        allow_extension,
        has_sites: hs,
        usable: us,
    };
    let mut below = SideState { dir: 1, step: 0, quota: count_per_side as i64, cap: max_scan as i64, closed: false, walled: false, found: Vec::new() };
    let mut above = SideState { dir: -1, step: 0, quota: count_per_side as i64, cap: max_scan as i64, closed: false, walled: false, found: Vec::new() };
    let ghost mut n: nat = 0;
    assert(below.found@ =~= Seq::<i32>::empty());
    while !below.closed || !above.closed
        invariant
            height >= 0,
            forall|a: i32| #[trigger] row_has_sites.requires((a,)),
            forall|a: i32| #[trigger] row_usable.requires((a,)),
            m == imax(imax(max_scan as int, extended_cap as int), 0),
            below.bounded(m, 0x1_0000_0000),
            above.bounded(m, 0x1_0000_0000),
            below.quota + above.quota <= 0x1_0000_0000,
            below.dir == 1,
            above.dir == -1,
            walk == (|hs: spec_fn(int) -> bool, us: spec_fn(int) -> bool| Walk {
                seed: seed_y as int,
                height: height as int,
                grid_h: grid_h as int,
                count: count_per_side as int,
                max_scan: max_scan as int,
                extended_cap: extended_cap as int,
                allow_extension,
                has_sites: hs,
                usable: us,
            }),
            forall|hs: spec_fn(int) -> bool, us: spec_fn(int) -> bool|
                #![trigger agrees1(*row_has_sites, hs), agrees1(*row_usable, us)]
                agrees1(*row_has_sites, hs) && agrees1(*row_usable, us) ==>
                    walk(hs, us).after(n) == (below.model(), above.model()),
        decreases
            (if below.walled { 0int } else { 1int }) + (if above.walled { 0int } else { 1int }),
            (m - below.step) + (m - above.step),
            (if below.closed { 0int } else { 1int }) + (if above.closed { 0int } else { 1int }),
    {
        let ghost b0 = below.model();
        let ghost a0 = above.model();
        step_side(&mut below, &mut above, seed_y, height, grid_h, extended_cap, allow_extension, row_has_sites, row_usable, Ghost(m));
        let ghost b1 = below.model();
        let ghost a1 = above.model();
        step_side(&mut above, &mut below, seed_y, height, grid_h, extended_cap, allow_extension, row_has_sites, row_usable, Ghost(m));
        proof {
            n = n + 1;
            assert forall|hs: spec_fn(int) -> bool, us: spec_fn(int) -> bool|
                #![trigger agrees1(*row_has_sites, hs), agrees1(*row_usable, us)]
                agrees1(*row_has_sites, hs) && agrees1(*row_usable, us) implies
                    walk(hs, us).after(n) == (below.model(), above.model()) by {
                let w = walk(hs, us);
                assert(agrees1(*row_has_sites, w.has_sites) && agrees1(*row_usable, w.usable));
                assert(w.step(1, b0, a0) == (b1, a1));
                assert(w.step(-1, a1, b1) == (above.model(), below.model()));
                assert(w.after((n - 1) as nat) == (b0, a0));
            }
        }
    }
    let mut rows: Vec<i32> = Vec::new();
    let seed_ok: bool = row_usable(seed_y);
    if seed_ok {
        rows.push(seed_y);
    }
    let ghost bm = below.model();
    let ghost am = above.model();
    let ghost head = rows@;
    push_all(&mut rows, &below.found);
    push_all(&mut rows, &above.found);
    assert forall|hs: spec_fn(int) -> bool, us: spec_fn(int) -> bool|
        #![trigger agrees1(*row_has_sites, hs), agrees1(*row_usable, us)]
        agrees1(*row_has_sites, hs) && agrees1(*row_usable, us) implies walk(hs, us).gives(rows@) by {
        let w = walk(hs, us);
        assert(seed_ok == us(seed_y as int));
        assert(w.after(n) == (bm, am));
        assert(head =~= if us(w.seed) { seq![w.seed as i32] } else { Seq::empty() });
        assert(rows@ =~= w.rows(bm, am));
    }
    rows
}

/// Append every entry of `b` to `a`.
pub fn push_all(a: &mut Vec<i32>, b: &Vec<i32>)
    ensures
        final(a)@ == old(a)@ + b@,
{
    let ghost a0 = a@;
    let mut i: usize = 0;
    while i < b.len()
        invariant
            i <= b@.len(),
            a@ == a0 + b@.subrange(0, i as int),
        decreases b@.len() - i,
    {
        a.push(b[i]);
        i = i + 1;
        assert(a@ =~= a0 + b@.subrange(0, i as int));
    }
    assert(b@.subrange(0, i as int) =~= b@);
}

// ── columns ──────────────────────────────────────────────────────────────────────────────────

/// The horizontal walk's state.
pub struct Reach {
    pub left: int,
    pub right: int,
    pub left_reach: int,
    pub right_reach: int,
    pub left_open: bool,
    pub right_open: bool,
    pub budget: int,
}

/// What the horizontal walk is about.
pub struct Span {
    pub base: int,
    pub site_window: int,
    pub max_disp: int,
    pub allow_extension: bool,
    pub off_die: spec_fn(int) -> bool,
    pub open_at: spec_fn(int) -> bool,
}

impl Span {
    pub open spec fn step_cap(self) -> int {
        imin(4 * self.site_window, self.max_disp)
    }

    pub open spec fn start(self) -> Reach {
        Reach { left: 0, right: 0, left_reach: 0, right_reach: 0, left_open: true, right_open: true, budget: 2 * self.site_window }
    }

    pub open spec fn done(self, s: Reach) -> bool {
        s.budget <= 0 || !(s.left_open || s.right_open)
    }

    /// A step to the left: only an open position spends budget, so blocked ones are walked past.
    pub open spec fn go_left(self, s: Reach) -> Reach {
        if !s.left_open {
            s
        } else if s.left >= self.step_cap() || (self.off_die)(self.base - (s.left + 1)) {
            Reach { left_open: false, ..s }
        } else if (self.open_at)(self.base - (s.left + 1)) {
            Reach { left: s.left + 1, left_reach: s.left + 1, budget: s.budget - 1, ..s }
        } else {
            Reach { left: s.left + 1, ..s }
        }
    }

    /// A step to the right, while budget is left.
    pub open spec fn go_right(self, s: Reach) -> Reach {
        if !(s.right_open && s.budget > 0) {
            s
        } else if s.right >= self.step_cap() || (self.off_die)(self.base + (s.right + 1)) {
            Reach { right_open: false, ..s }
        } else if (self.open_at)(self.base + (s.right + 1)) {
            Reach { right: s.right + 1, right_reach: s.right + 1, budget: s.budget - 1, ..s }
        } else {
            Reach { right: s.right + 1, ..s }
        }
    }

    /// The state after `n` rounds.
    pub open spec fn after(self, n: nat) -> Reach
        decreases n,
    {
        if n == 0 {
            self.start()
        } else {
            let s = self.after((n - 1) as nat);
            if self.done(s) { s } else { self.go_right(self.go_left(s)) }
        }
    }

    /// How far left and right the window reaches: to the furthest open position, never less than
    /// the base window, never past the displacement limit.
    pub open spec fn bounds(self, s: Reach) -> (int, int) {
        let (lo, hi) = if self.allow_extension {
            (-imax(self.site_window, s.left_reach), imax(self.site_window, s.right_reach))
        } else {
            (-self.site_window, self.site_window)
        };
        (imax(lo, -self.max_disp), imin(hi, self.max_disp))
    }

    /// `(lo, hi)` is the window's reach.
    pub open spec fn gives(self, lo: int, hi: int) -> bool {
        exists|n: nat| (!self.allow_extension || self.done(#[trigger] self.after(n))) && (lo, hi) == self.bounds(self.after(n))
    }

    proof fn lemma_settled(self, n: nat, m: nat)
        requires
            n <= m,
            self.done(self.after(n)),
        ensures
            self.after(m) == self.after(n),
        decreases m,
    {
        if n < m {
            self.lemma_settled(n, (m - 1) as nat);
        }
    }
}

/// The window's reach is determined, reaches at least the base window wherever the displacement
/// limit allows it, and never passes the limit.
pub proof fn law_reach(s: Span, lo: int, hi: int, lo2: int, hi2: int)
    requires
        s.gives(lo, hi),
        s.gives(lo2, hi2),
    ensures
        lo == lo2 && hi == hi2,
        lo <= imax(-s.site_window, -s.max_disp),
        hi >= imin(s.site_window, s.max_disp),
        lo >= -s.max_disp,
        hi <= s.max_disp,
{
    let n = choose|n: nat| (!s.allow_extension || s.done(#[trigger] s.after(n))) && (lo, hi) == s.bounds(s.after(n));
    let m = choose|n: nat| (!s.allow_extension || s.done(#[trigger] s.after(n))) && (lo2, hi2) == s.bounds(s.after(n));
    if s.allow_extension {
        if n <= m {
            s.lemma_settled(n, m);
        } else {
            s.lemma_settled(m, n);
        }
    }
}

/// How far left and right the window reaches, as `(dx_lo, dx_hi)`.
///
/// The base window is `±site_window`. With extension both sides walk outward, sharing a budget of
/// `2 * site_window` open positions, each at most `4 * site_window` steps and never off the die;
/// the window then reaches to the furthest open position of each side.
pub fn horizontal_window_bounds<F: Fn(i32) -> bool, G: Fn(i32) -> bool>(
    base_x: i32,
    site_window: i32,
    max_displacement_x: i32,
    allow_extension: bool,
    off_die: &F,
    open_at: &G,
) -> (r: (i32, i32))
    requires
        site_window > i32::MIN,
        max_displacement_x > i32::MIN,
        i32::MIN <= base_x - imin(4 * site_window, max_displacement_x as int),
        base_x + imin(4 * site_window, max_displacement_x as int) <= i32::MAX,
        forall|a: i32| #[trigger] off_die.requires((a,)),
        forall|a: i32| #[trigger] open_at.requires((a,)),
    ensures
        forall|od: spec_fn(int) -> bool, op: spec_fn(int) -> bool|
            #![trigger agrees1(*off_die, od), agrees1(*open_at, op)]
            agrees1(*off_die, od) && agrees1(*open_at, op) ==> (Span {
                base: base_x as int,
                site_window: site_window as int,
                max_disp: max_displacement_x as int,
                allow_extension,
                off_die: od,
                open_at: op,
            }).gives(r.0 as int, r.1 as int),
        -max_displacement_x <= r.0 <= imax(-site_window, -max_displacement_x),
        imin(site_window as int, max_displacement_x as int) <= r.1 <= max_displacement_x,
{
    let ghost span = |od: spec_fn(int) -> bool, op: spec_fn(int) -> bool| Span {
        base: base_x as int,
        site_window: site_window as int,
        max_disp: max_displacement_x as int,
        allow_extension,
        off_die: od,
        open_at: op,
    };
    let sw: i64 = site_window as i64;
    let md: i64 = max_displacement_x as i64;
    let mut dx_lo: i64 = -sw;
    let mut dx_hi: i64 = sw;
    let ghost mut n: nat = 0;
    let mut left_reach: i64 = 0;
    let mut right_reach: i64 = 0;
    if allow_extension {
        let step_cap: i64 = min64(4 * sw, md);
        let mut budget: i64 = 2 * sw;
        let mut left: i64 = 0;
        let mut right: i64 = 0;
        let mut left_open: bool = true;
        let mut right_open: bool = true;
        while budget > 0 && (left_open || right_open)
            invariant
                sw == site_window,
                md == max_displacement_x,
                step_cap == imin(4 * sw, md as int),
                i32::MIN <= base_x - imin(4 * site_window, max_displacement_x as int),
                base_x + imin(4 * site_window, max_displacement_x as int) <= i32::MAX,
                forall|a: i32| #[trigger] off_die.requires((a,)),
                forall|a: i32| #[trigger] open_at.requires((a,)),
                0 <= left <= imax(step_cap as int, 0),
                0 <= right <= imax(step_cap as int, 0),
                0 <= left_reach <= left,
                0 <= right_reach <= right,
                budget <= 2 * sw,
                -1 <= budget || budget == 2 * sw,
                span == (|od: spec_fn(int) -> bool, op: spec_fn(int) -> bool| Span {
                    base: base_x as int,
                    site_window: site_window as int,
                    max_disp: max_displacement_x as int,
                    allow_extension,
                    off_die: od,
                    open_at: op,
                }),
                forall|od: spec_fn(int) -> bool, op: spec_fn(int) -> bool|
                    #![trigger agrees1(*off_die, od), agrees1(*open_at, op)]
                    agrees1(*off_die, od) && agrees1(*open_at, op) ==> span(od, op).after(n) == (Reach {
                        left: left as int,
                        right: right as int,
                        left_reach: left_reach as int,
                        right_reach: right_reach as int,
                        left_open,
                        right_open,
                        budget: budget as int,
                    }),
            decreases
                imax(step_cap as int, 0) - left + imax(step_cap as int, 0) - right
                    + (if left_open { 1int } else { 0int }) + (if right_open { 1int } else { 0int }),
        {
            let ghost s0 = Reach {
                left: left as int,
                right: right as int,
                left_reach: left_reach as int,
                right_reach: right_reach as int,
                left_open,
                right_open,
                budget: budget as int,
            };
            if left_open {
                if left >= step_cap {
                    left_open = false;
                } else {
                    let off: bool = off_die((base_x as i64 - (left + 1)) as i32);
                    if off {
                        left_open = false;
                    } else {
                        left = left + 1;
                        let open: bool = open_at((base_x as i64 - left) as i32);
                        if open {
                            left_reach = left;
                            budget = budget - 1;
                        }
                    }
                }
            }
            let ghost s1 = Reach {
                left: left as int,
                right: right as int,
                left_reach: left_reach as int,
                right_reach: right_reach as int,
                left_open,
                right_open,
                budget: budget as int,
            };
            assert forall|od: spec_fn(int) -> bool, op: spec_fn(int) -> bool|
                #![trigger agrees1(*off_die, od), agrees1(*open_at, op)]
                agrees1(*off_die, od) && agrees1(*open_at, op) implies span(od, op).go_left(s0) == s1 by {
                let w = span(od, op);
                assert(w.step_cap() == step_cap);
            }
            if right_open && budget > 0 {
                if right >= step_cap {
                    right_open = false;
                } else {
                    let off: bool = off_die((base_x as i64 + (right + 1)) as i32);
                    if off {
                        right_open = false;
                    } else {
                        right = right + 1;
                        let open: bool = open_at((base_x as i64 + right) as i32);
                        if open {
                            right_reach = right;
                            budget = budget - 1;
                        }
                    }
                }
            }
            proof {
                let s2 = Reach {
                    left: left as int,
                    right: right as int,
                    left_reach: left_reach as int,
                    right_reach: right_reach as int,
                    left_open,
                    right_open,
                    budget: budget as int,
                };
                n = n + 1;
                assert forall|od: spec_fn(int) -> bool, op: spec_fn(int) -> bool|
                    #![trigger agrees1(*off_die, od), agrees1(*open_at, op)]
                    agrees1(*off_die, od) && agrees1(*open_at, op) implies span(od, op).after(n) == s2 by {
                    let w = span(od, op);
                    assert(w.step_cap() == step_cap);
                    assert(w.after((n - 1) as nat) == s0);
                    assert(w.go_left(s0) == s1);
                    assert(w.go_right(s1) == s2);
                }
            }
        }
        dx_lo = -max64(sw, left_reach);
        dx_hi = max64(sw, right_reach);
        assert forall|od: spec_fn(int) -> bool, op: spec_fn(int) -> bool|
            #![trigger agrees1(*off_die, od), agrees1(*open_at, op)]
            agrees1(*off_die, od) && agrees1(*open_at, op) implies span(od, op).done(span(od, op).after(n))
                && span(od, op).after(n).left_reach == left_reach && span(od, op).after(n).right_reach == right_reach by {
        }
    }
    let lo: i64 = max64(dx_lo, -md);
    let hi: i64 = min64(dx_hi, md);
    proof {
        assert(i32::MIN <= lo <= i32::MAX && i32::MIN <= hi <= i32::MAX);
        assert forall|od: spec_fn(int) -> bool, op: spec_fn(int) -> bool|
            #![trigger agrees1(*off_die, od), agrees1(*open_at, op)]
            agrees1(*off_die, od) && agrees1(*open_at, op) implies span(od, op).gives(lo as int, hi as int) by {
            let w = span(od, op);
            assert((lo as int, hi as int) == w.bounds(w.after(n)));
        }
    }
    (lo as i32, hi as i32)
}

/// One cell's search window: a horizontal reach and the rows to try.
#[derive(Debug, Clone, PartialEq, Eq)]
pub struct SearchWindow {
    pub dx_lo: i32,
    pub dx_hi: i32,
    pub rows: Vec<i32>,
}

/// Whether a predicate on a row and a column range agrees with a mathematical one.
pub open spec fn agrees3<F: Fn(i32, i32, i32) -> bool>(f: F, g: spec_fn(int, int, int) -> bool) -> bool {
    forall|x: i32, y: i32, z: i32, r: bool| #[trigger] f.ensures((x, y, z), r) ==> r == g(x as int, y as int, z as int)
}

/// The two reaches around an anchor. The horizontal one comes first; the vertical walk then asks
/// for rows that can host the cell within that span.
pub fn build_search_window<A: Fn(i32) -> bool, B: Fn(i32) -> bool, C: Fn(i32) -> bool, D: Fn(i32, i32, i32) -> bool>(
    anchor_x: i32,
    anchor_y: i32,
    site_window: i32,
    row_window: i32,
    row_cap: i32,
    max_disp_x: i32,
    max_disp_y: i32,
    allow_extension: bool,
    off_die: &A,
    open_at: &B,
    cell_height: i32,
    grid_h: i32,
    row_has_sites: &C,
    row_usable_in: &D,
) -> (r: SearchWindow)
    requires
        -0x4000_0000 <= anchor_x <= 0x4000_0000,
        -0x1000_0000 <= site_window <= 0x1000_0000,
        -0x3fff_0000 <= max_disp_x <= 0x3fff_0000,
        row_cap >= -0x4000_0000,
        cell_height >= 0,
        forall|a: i32| #[trigger] off_die.requires((a,)),
        forall|a: i32| #[trigger] open_at.requires((a,)),
        forall|a: i32| #[trigger] row_has_sites.requires((a,)),
        forall|a: i32, b: i32, c: i32| #[trigger] row_usable_in.requires((a, b, c)),
    ensures
        forall|od: spec_fn(int) -> bool, op: spec_fn(int) -> bool|
            #![trigger agrees1(*off_die, od), agrees1(*open_at, op)]
            agrees1(*off_die, od) && agrees1(*open_at, op) ==> (Span {
                base: anchor_x as int,
                site_window: site_window as int,
                max_disp: max_disp_x as int,
                allow_extension,
                off_die: od,
                open_at: op,
            }).gives(r.dx_lo as int, r.dx_hi as int),
        forall|hs: spec_fn(int) -> bool, ui: spec_fn(int, int, int) -> bool|
            #![trigger agrees1(*row_has_sites, hs), agrees3(*row_usable_in, ui)]
            agrees1(*row_has_sites, hs) && agrees3(*row_usable_in, ui) ==> (Walk {
                seed: anchor_y as int,
                height: cell_height as int,
                grid_h: grid_h as int,
                count: row_window as int,
                max_scan: row_cap as int,
                extended_cap: imin(2 * row_cap, max_disp_y as int),
                allow_extension,
                has_sites: hs,
                usable: |y: int| ui(y, anchor_x + r.dx_lo, anchor_x + r.dx_hi),
            }).gives(r.rows@),
{
    let (dx_lo, dx_hi) = horizontal_window_bounds(anchor_x, site_window, max_disp_x, allow_extension, off_die, open_at);
    let x_lo64: i64 = anchor_x as i64 + dx_lo as i64;
    let x_hi64: i64 = anchor_x as i64 + dx_hi as i64;
    let x_lo: i32 = x_lo64 as i32;
    let x_hi: i32 = x_hi64 as i32;
    let usable = |r: i32| -> (b: bool)
        requires
            row_usable_in.requires((r, x_lo, x_hi)),
        ensures
            row_usable_in.ensures((r, x_lo, x_hi), b),
        { row_usable_in(r, x_lo, x_hi) };
    let ext: i32 = min64(2 * row_cap as i64, max_disp_y as i64) as i32;
    let rows = vertical_window_rows(anchor_y, cell_height, grid_h, row_window, row_cap, ext, allow_extension, row_has_sites, &usable);
    assert forall|hs: spec_fn(int) -> bool, ui: spec_fn(int, int, int) -> bool|
        #![trigger agrees1(*row_has_sites, hs), agrees3(*row_usable_in, ui)]
        agrees1(*row_has_sites, hs) && agrees3(*row_usable_in, ui) implies (Walk {
            seed: anchor_y as int,
            height: cell_height as int,
            grid_h: grid_h as int,
            count: row_window as int,
            max_scan: row_cap as int,
            extended_cap: imin(2 * row_cap, max_disp_y as int),
            allow_extension,
            has_sites: hs,
            usable: |y: int| ui(y, anchor_x + dx_lo, anchor_x + dx_hi),
        }).gives(rows@) by {
        let us = |y: int| ui(y, anchor_x + dx_lo, anchor_x + dx_hi);
        assert(agrees1(usable, us));
    }
    SearchWindow { dx_lo, dx_hi, rows }
}

// ── candidates ───────────────────────────────────────────────────────────────────────────────

/// The rank that breaks cost ties, compared field by field: a candidate of window 0, around the
/// position a cell started at, beats one of window 1, around where it sits.
#[derive(Debug, Clone, Copy, PartialEq, Eq, PartialOrd, Ord)]
pub struct ScanRank {
    pub window: u8,
    pub row_pos: usize,
    pub dx: i32,
}

/// Whether rank `a` comes strictly before rank `b`.
pub open spec fn rank_less(a: ScanRank, b: ScanRank) -> bool {
    ||| a.window < b.window
    ||| a.window == b.window && a.row_pos < b.row_pos
    ||| a.window == b.window && a.row_pos == b.row_pos && a.dx < b.dx
}

/// Does rank `a` come strictly before rank `b`?
pub fn rank_before(a: &ScanRank, b: &ScanRank) -> (r: bool)
    ensures
        r == rank_less(*a, *b),
{
    if a.window != b.window {
        a.window < b.window
    } else if a.row_pos != b.row_pos {
        a.row_pos < b.row_pos
    } else {
        a.dx < b.dx
    }
}

/// One candidate the search offers.
#[derive(Debug, Clone, Copy, PartialEq, Eq)]
pub struct Candidate {
    pub x: i32,
    pub y: i32,
    pub rank: ScanRank,
}

/// The search around one position: its rows and its horizontal reach.
pub struct Scan {
    pub x: int,
    pub y: int,
    pub rows: Seq<i32>,
    pub dx_lo: int,
    pub dx_hi: int,
}

impl Scan {
    pub open spec fn cand(self, window: u8, k: int, dx: int) -> Candidate {
        Candidate {
            x: (self.x + dx) as i32,
            y: self.rows[k],
            rank: ScanRank { window, row_pos: k as usize, dx: dx as i32 },
        }
    }

    /// The candidates of row `k` at displacement exactly `d`: left, then right; the centre once.
    pub open spec fn row_wave(self, d: int, k: int) -> Seq<Candidate> {
        let rem = d - dist(self.rows[k] as int, self.y);
        if rem < 0 {
            Seq::empty()
        } else {
            (if -rem >= self.dx_lo { seq![self.cand(0, k, -rem)] } else { Seq::empty() })
                + (if 0 < rem <= self.dx_hi { seq![self.cand(0, k, rem)] } else { Seq::empty() })
        }
    }

    /// The candidates at displacement `d` of the rows from `k` on.
    pub open spec fn wave_from(self, d: int, k: int) -> Seq<Candidate>
        decreases self.rows.len() - k,
    {
        if k >= self.rows.len() {
            Seq::empty()
        } else {
            self.row_wave(d, k) + self.wave_from(d, k + 1)
        }
    }

    /// The largest vertical displacement of the first `n` rows.
    pub open spec fn max_dy(self, n: int) -> int
        decreases n,
    {
        if n <= 0 { 0 } else { imax(self.max_dy(n - 1), dist(self.rows[n - 1] as int, self.y)) }
    }

    /// The largest displacement of any candidate.
    pub open spec fn max_d(self) -> int {
        self.max_dy(self.rows.len() as int) + imax(-self.dx_lo, self.dx_hi)
    }

    /// The wavefronts from displacement `d` on; the first one that `prune` names ends them.
    pub open spec fn waves(self, prune: spec_fn(int) -> bool, d: int) -> Seq<Candidate>
        decreases self.max_d() - d + 1,
    {
        if d > self.max_d() || prune(d) {
            Seq::empty()
        } else {
            self.wave_from(d, 0) + self.waves(prune, d + 1)
        }
    }

    /// The columns of row `k` from `dx` on.
    pub open spec fn row_scan(self, k: int, dx: int) -> Seq<Candidate>
        decreases self.dx_hi - dx + 1,
    {
        if dx > self.dx_hi {
            Seq::empty()
        } else {
            seq![self.cand(1, k, dx)] + self.row_scan(k, dx + 1)
        }
    }

    /// Every position of the rows from `k` on.
    pub open spec fn full_from(self, k: int) -> Seq<Candidate>
        decreases self.rows.len() - k,
    {
        if k >= self.rows.len() {
            Seq::empty()
        } else {
            self.row_scan(k, self.dx_lo) + self.full_from(k + 1)
        }
    }
}

/// Whether a test on displacements agrees with a mathematical one.
pub open spec fn agrees_wide<F: Fn(i64) -> bool>(f: F, g: spec_fn(int) -> bool) -> bool {
    forall|x: i64, r: bool| #[trigger] f.ensures((x,), r) ==> r == g(x as int)
}

/// A wavefront holds only candidates at its own displacement, so wavefronts come in order of
/// growing displacement.
pub proof fn law_wavefront_displacement(s: Scan, d: int, k: int)
    requires
        0 <= k,
        i32::MIN <= s.x + s.dx_lo,
        s.x + s.dx_hi <= i32::MAX,
        s.x <= i32::MAX,
        i32::MIN <= s.x,
    ensures
        forall|i: int| 0 <= i < s.wave_from(d, k).len() ==>
            dist((#[trigger] s.wave_from(d, k)[i]).x as int, s.x) + dist(s.wave_from(d, k)[i].y as int, s.y) == d,
    decreases s.rows.len() - k,
{
    if k < s.rows.len() {
        law_wavefront_displacement(s, d, k + 1);
        let a = s.row_wave(d, k);
        let b = s.wave_from(d, k + 1);
        assert forall|i: int| 0 <= i < s.wave_from(d, k).len() implies
            dist((#[trigger] s.wave_from(d, k)[i]).x as int, s.x) + dist(s.wave_from(d, k)[i].y as int, s.y) == d by {
            if i >= a.len() {
                assert(s.wave_from(d, k)[i] == b[i - a.len()]);
            } else {
                assert(s.wave_from(d, k)[i] == a[i]);
            }
        }
    }
}

/// Candidates in the order in which they are tried.
///
/// First wavefronts of growing displacement around the initial position, until `prune` names a
/// displacement: the floor only rises, so nothing further out can win. Then, only for a cell that
/// has been displaced, every position of the window around where it sits.
pub fn enumerate_candidates<F: Fn(i64) -> bool>(
    init_x: i32, init_y: i32, cur_x: i32, cur_y: i32,
    init_rows: &[i32], init_dx_lo: i32, init_dx_hi: i32,
    curr_rows: &[i32], curr_dx_lo: i32, curr_dx_hi: i32,
    prune: &F,
    out: &mut Vec<Candidate>,
)
    requires
        i32::MIN <= init_x + init_dx_lo,
        init_x + init_dx_hi <= i32::MAX,
        i32::MIN <= cur_x + curr_dx_lo,
        cur_x + curr_dx_hi <= i32::MAX,
        forall|a: i64| #[trigger] prune.requires((a,)),
    ensures
        forall|g: spec_fn(int) -> bool| #[trigger] agrees_wide(*prune, g) ==> final(out)@ == old(out)@
            + (Scan { x: init_x as int, y: init_y as int, rows: init_rows@, dx_lo: init_dx_lo as int, dx_hi: init_dx_hi as int }).waves(g, 0)
            + if cur_x == init_x && cur_y == init_y {
                Seq::empty()
            } else {
                (Scan { x: cur_x as int, y: cur_y as int, rows: curr_rows@, dx_lo: curr_dx_lo as int, dx_hi: curr_dx_hi as int }).full_from(0)
            },
{
    let ghost s = Scan { x: init_x as int, y: init_y as int, rows: init_rows@, dx_lo: init_dx_lo as int, dx_hi: init_dx_hi as int };
    let ghost out0 = out@;
    let mut max_dy: i64 = 0;
    let mut k: usize = 0;
    while k < init_rows.len()
        invariant
            k <= init_rows@.len(),
            s == (Scan { x: init_x as int, y: init_y as int, rows: init_rows@, dx_lo: init_dx_lo as int, dx_hi: init_dx_hi as int }),
            max_dy == s.max_dy(k as int),
            0 <= max_dy <= 0x1_0000_0000,
        decreases init_rows@.len() - k,
    {
        max_dy = max64(max_dy, distance(init_rows[k] as i64, init_y as i64));
        k = k + 1;
    }
    let max_d: i64 = max_dy + max64(-(init_dx_lo as i64), init_dx_hi as i64);
    assert(max_d == s.max_d());
    let mut d: i64 = 0;
    let mut cut: bool = false;
    proof {
        assert forall|g: spec_fn(int) -> bool| #[trigger] agrees_wide(*prune, g) implies out@ + s.waves(g, d as int) == out0 + s.waves(g, 0) by {}
    }
    while d <= max_d && !cut
        invariant
            s == (Scan { x: init_x as int, y: init_y as int, rows: init_rows@, dx_lo: init_dx_lo as int, dx_hi: init_dx_hi as int }),
            i32::MIN <= init_x + init_dx_lo,
            init_x + init_dx_hi <= i32::MAX,
            0 <= d,
            d <= max_d + 1 || d == 0,
            max_d == s.max_d(),
            max_d <= 0x2_0000_0000,
            forall|a: i64| #[trigger] prune.requires((a,)),
            !cut ==> forall|g: spec_fn(int) -> bool| #[trigger] agrees_wide(*prune, g) ==> out@ + s.waves(g, d as int) == out0 + s.waves(g, 0),
            cut ==> forall|g: spec_fn(int) -> bool| #[trigger] agrees_wide(*prune, g) ==> out@ == out0 + s.waves(g, 0),
        decreases max_d - d + 1, (if cut { 0int } else { 1int }),
    {
        let stop: bool = prune(d);
        if stop {
            cut = true;
            assert forall|g: spec_fn(int) -> bool| #[trigger] agrees_wide(*prune, g) implies out@ == out0 + s.waves(g, 0) by {
                assert(g(d as int));
                assert(s.waves(g, d as int) =~= Seq::<Candidate>::empty());
                assert(out@ + s.waves(g, d as int) =~= out@);
            }
        } else {
            let ghost out1 = out@;
            k = 0;
            while k < init_rows.len()
                invariant
                    k <= init_rows@.len(),
                    s == (Scan { x: init_x as int, y: init_y as int, rows: init_rows@, dx_lo: init_dx_lo as int, dx_hi: init_dx_hi as int }),
                    i32::MIN <= init_x + init_dx_lo,
                    init_x + init_dx_hi <= i32::MAX,
                    0 <= d <= 0x2_0000_0000,
                    out@ + s.wave_from(d as int, k as int) == out1 + s.wave_from(d as int, 0),
                decreases init_rows@.len() - k,
            {
                let ghost out2 = out@;
                let ty: i32 = init_rows[k];
                let rem: i64 = d - distance(ty as i64, init_y as i64);
                if rem >= 0 {
                    if -rem >= init_dx_lo as i64 {
                        out.push(Candidate {
                            x: (init_x as i64 - rem) as i32,
                            y: ty,
                            rank: ScanRank { window: 0, row_pos: k, dx: (-rem) as i32 },
                        });
                    }
                    if rem > 0 && rem <= init_dx_hi as i64 {
                        out.push(Candidate {
                            x: (init_x as i64 + rem) as i32,
                            y: ty,
                            rank: ScanRank { window: 0, row_pos: k, dx: rem as i32 },
                        });
                    }
                }
                assert(out@ =~= out2 + s.row_wave(d as int, k as int));
                assert(out@ + s.wave_from(d as int, k + 1) =~= out2 + s.wave_from(d as int, k as int));
                k = k + 1;
            }
            assert(out@ + s.wave_from(d as int, k as int) =~= out@);
            assert forall|g: spec_fn(int) -> bool| #[trigger] agrees_wide(*prune, g) implies out@ + s.waves(g, d + 1) == out0 + s.waves(g, 0) by {
                assert(!g(d as int));
                assert(out@ + s.waves(g, d + 1) =~= out1 + s.waves(g, d as int));
            }
            d = d + 1;
        }
    }
    assert forall|g: spec_fn(int) -> bool| #[trigger] agrees_wide(*prune, g) implies out@ == out0 + s.waves(g, 0) by {
        if !cut {
            assert(s.waves(g, d as int) =~= Seq::<Candidate>::empty());
            assert(out@ + s.waves(g, d as int) =~= out@);
        }
    }
    if cur_x == init_x && cur_y == init_y {
        assert forall|g: spec_fn(int) -> bool| #[trigger] agrees_wide(*prune, g) implies out@ == out0 + s.waves(g, 0) + Seq::<Candidate>::empty() by {
            assert(out@ =~= out0 + s.waves(g, 0) + Seq::<Candidate>::empty());
        }
        return;
    }
    let ghost out3 = out@;
    let ghost c = Scan { x: cur_x as int, y: cur_y as int, rows: curr_rows@, dx_lo: curr_dx_lo as int, dx_hi: curr_dx_hi as int };
    k = 0;
    while k < curr_rows.len()
        invariant
            k <= curr_rows@.len(),
            c == (Scan { x: cur_x as int, y: cur_y as int, rows: curr_rows@, dx_lo: curr_dx_lo as int, dx_hi: curr_dx_hi as int }),
            i32::MIN <= cur_x + curr_dx_lo,
            cur_x + curr_dx_hi <= i32::MAX,
            out@ + c.full_from(k as int) == out3 + c.full_from(0),
        decreases curr_rows@.len() - k,
    {
        let ghost out4 = out@;
        let ty: i32 = curr_rows[k];
        let mut dx: i64 = curr_dx_lo as i64;
        while dx <= curr_dx_hi as i64
            invariant
                k < curr_rows@.len(),
                ty == curr_rows@[k as int],
                c == (Scan { x: cur_x as int, y: cur_y as int, rows: curr_rows@, dx_lo: curr_dx_lo as int, dx_hi: curr_dx_hi as int }),
                i32::MIN <= cur_x + curr_dx_lo,
                cur_x + curr_dx_hi <= i32::MAX,
                curr_dx_lo <= dx,
                dx <= curr_dx_hi + 1 || dx == curr_dx_lo,
                out@ + c.row_scan(k as int, dx as int) == out4 + c.row_scan(k as int, curr_dx_lo as int),
            decreases curr_dx_hi - dx + 1,
        {
            let ghost out5 = out@;
            out.push(Candidate {
                x: (cur_x as i64 + dx) as i32,
                y: ty,
                rank: ScanRank { window: 1, row_pos: k, dx: dx as i32 },
            });
            assert(out@ =~= out5 + seq![c.cand(1, k as int, dx as int)]);
            assert(out@ + c.row_scan(k as int, dx + 1) =~= out5 + c.row_scan(k as int, dx as int));
            dx = dx + 1;
        }
        assert(out@ + c.row_scan(k as int, dx as int) =~= out@);
        assert(out@ + c.full_from(k + 1) =~= out4 + c.full_from(k as int));
        k = k + 1;
    }
    assert(out@ + c.full_from(k as int) =~= out@);
    assert forall|g: spec_fn(int) -> bool| #[trigger] agrees_wide(*prune, g) implies out@ == out0 + s.waves(g, 0) + c.full_from(0) by {
        assert(out3 == out0 + s.waves(g, 0));
    }
}

} // verus!
