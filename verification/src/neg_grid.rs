//! The negotiation grid: how many cells claim each square, what a square has cost so far, and
//! which cell is stamped on it.

use vstd::prelude::*;
use crate::arith::{imax, imin, max64, min64};

verus! {

/// One square of the negotiation grid.
#[derive(Debug, Clone, Copy, PartialEq, Eq, Structural)]
pub struct NegPixel {
    /// How many cells claim the square.
    pub usage: i32,
    /// The history price: it rises each time the square is contested.
    pub hist_cost: i64,
    /// 1 for a usable square, 0 for a blockage or a fixed cell's footprint.
    pub capacity: i32,
    /// The cell stamped here last. Unlike `usage` it names one cell, so under overlap the two
    /// answer different questions.
    pub cell: Option<usize>,
}

/// How much history a unit of overuse adds.
pub const HIST_INCREMENT: i64 = 1;

impl NegPixel {
    /// Claims beyond the one the square can serve.
    pub open spec fn over(self) -> int {
        imax(self.usage - 1, 0)
    }

    /// Claims beyond the one the square can serve. One cell per square is not overuse.
    pub fn overuse(&self) -> (r: i32)
        requires
            self.usage > i32::MIN,
        ensures
            r == self.over(),
    {
        if self.usage - 1 > 0 { self.usage - 1 } else { 0 }
    }
}

impl Default for NegPixel {
    fn default() -> (r: NegPixel)
        ensures
            r == (NegPixel { usage: 0, hist_cost: 0, capacity: 0, cell: None }),
    {
        NegPixel { usage: 0, hist_cost: 0, capacity: 0, cell: None }
    }
}

/// The negotiation grid.
pub struct NegGrid {
    pub width: usize,
    pub height: usize,
    /// The squares, row after row.
    pub pixels: Vec<NegPixel>,
    pub row_sites: Vec<bool>,
}

/// One change to a square.
#[derive(Debug, Clone, Copy)]
pub enum NegStamp {
    /// A fixed cell covers the square: no capacity, one claim.
    Blockade,
    /// Claims come or go.
    Claim(i32),
    /// A cell is stamped, whatever was there.
    Paint(usize),
    /// A cell clears its own stamp.
    Erase(usize),
}

/// What a change leaves of a square.
pub open spec fn neg_stamped(p: NegPixel, s: NegStamp) -> NegPixel {
    match s {
        NegStamp::Blockade => NegPixel { capacity: 0, usage: 1, ..p },
        NegStamp::Claim(d) => NegPixel { usage: (p.usage + d) as i32, ..p },
        NegStamp::Paint(i) => NegPixel { cell: Some(i), ..p },
        NegStamp::Erase(i) => NegPixel { cell: if p.cell == Some(i) { None } else { p.cell }, ..p },
    }
}

/// Whether a change can be made to a square.
pub open spec fn stamp_fits(p: NegPixel, s: NegStamp) -> bool {
    s matches NegStamp::Claim(d) ==> i32::MIN < p.usage + d <= i32::MAX
}

fn neg_stamp_pixel(p: NegPixel, s: NegStamp) -> (r: NegPixel)
    requires
        stamp_fits(p, s),
    ensures
        r == neg_stamped(p, s),
{
    let mut q = p;
    match s {
        NegStamp::Blockade => {
            q.capacity = 0;
            q.usage = 1;
        },
        NegStamp::Claim(d) => { q.usage = q.usage + d; },
        NegStamp::Paint(i) => { q.cell = Some(i); },
        NegStamp::Erase(i) => {
            if let Some(o) = p.cell {
                if o == i {
                    q.cell = None;
                }
            }
        },
    }
    q
}

/// Whether `(gx, gy)` lies in the footprint of `w` by `h` squares at `(x, y)`.
pub open spec fn in_foot(x: int, y: int, w: int, h: int, gx: int, gy: int) -> bool {
    x <= gx < x + w && y <= gy < y + h
}

/// Whether a function value and a mathematical function agree.
pub open spec fn agrees_at<F: Fn(usize, usize) -> bool>(f: F, g: spec_fn(int, int) -> bool) -> bool {
    forall|x: usize, y: usize, r: bool| #[trigger] f.ensures((x, y), r) ==> r == g(x as int, y as int)
}

/// Claims beyond capacity over a run of squares.
pub open spec fn overuse_sum(s: Seq<NegPixel>) -> int
    decreases s.len(),
{
    if s.len() == 0 { 0 } else { overuse_sum(s.drop_last()) + s.last().over() }
}

proof fn lemma_overuse_sum_mono(s: Seq<NegPixel>, n: int)
    requires
        0 <= n <= s.len(),
    ensures
        0 <= overuse_sum(s.subrange(0, n)) <= overuse_sum(s),
    decreases s.len() - n,
{
    if n == s.len() {
        assert(s.subrange(0, n) =~= s);
        lemma_overuse_sum_nonneg(s);
    } else {
        lemma_overuse_sum_mono(s, n + 1);
        assert(s.subrange(0, n + 1).drop_last() =~= s.subrange(0, n));
        lemma_overuse_sum_nonneg(s.subrange(0, n));
    }
}

proof fn lemma_overuse_sum_nonneg(s: Seq<NegPixel>)
    ensures
        overuse_sum(s) >= 0,
    decreases s.len(),
{
    if s.len() > 0 {
        lemma_overuse_sum_nonneg(s.drop_last());
    }
}

/// The contents of a negotiation grid as a value.
#[verifier::ext_equal]
pub struct Board {
    pub pixels: Seq<NegPixel>,
    pub width: int,
    pub height: int,
}

impl Board {
    /// Whether `(x, y)` is a square of the board.
    pub open spec fn on(self, x: int, y: int) -> bool {
        0 <= x < self.width && 0 <= y < self.height
    }

    /// The square at `(x, y)`.
    pub open spec fn sq(self, x: int, y: int) -> NegPixel {
        self.pixels[y * self.width + x]
    }

    /// The board with a change made to the squares of a footprint.
    pub open spec fn stamp(self, x: int, y: int, w: int, h: int, s: NegStamp) -> Board {
        Board {
            pixels: Seq::new(self.pixels.len(), |k: int| if in_foot(x, y, w, h, k % self.width, k / self.width) {
                neg_stamped(self.pixels[k], s)
            } else {
                self.pixels[k]
            }),
            ..self
        }
    }
}

impl NegGrid {
    /// The grid's contents as a value.
    pub open spec fn board(&self) -> Board {
        Board { pixels: self.pixels@, width: self.width as int, height: self.height as int }
    }

    /// The column and the row of an index.
    pub proof fn lemma_cell_of(&self, k: int)
        requires
            self.shape(),
            0 <= k < self.pixels@.len(),
        ensures
            self.on(k % self.width as int, k / self.width as int),
            self.ix(k % self.width as int, k / self.width as int) == k,
    {
        let w = self.width as int;
        assert(w > 0) by (nonlinear_arith)
            requires 0 <= k < w * self.height, w >= 0;
        assert(k == (k / w) * w + k % w && 0 <= k % w < w && 0 <= k / w < self.height) by (nonlinear_arith)
            requires 0 <= k < w * self.height, w > 0;
    }

    /// The index of a square gives its column and its row back.
    pub proof fn lemma_ix_parts(&self, x: int, y: int)
        requires
            self.on(x, y),
        ensures
            self.ix(x, y) % self.width as int == x,
            self.ix(x, y) / self.width as int == y,
    {
        let w = self.width as int;
        vstd::arithmetic::div_mod::lemma_fundamental_div_mod_converse(y * w + x, w, y, x);
    }

    /// Stamping square by square is stamping the contents.
    proof fn lemma_stamp_board(&self, o: NegGrid, x: int, y: int, w: int, h: int, s: NegStamp)
        requires
            o.shape(),
            self.shape(),
            self.is_neg_stamped(o, x, y, w, h, s),
        ensures
            self.board() == o.board().stamp(x, y, w, h, s),
    {
        let want = o.board().stamp(x, y, w, h, s);
        assert forall|k: int| 0 <= k < self.pixels@.len() implies self.pixels@[k] == want.pixels[k] by {
            o.lemma_cell_of(k);
            let gx = k % o.width as int;
            let gy = k / o.width as int;
            assert(o.on(gx, gy));
            assert(self.sq(gx, gy) == self.pixels@[k]);
            assert(o.sq(gx, gy) == o.pixels@[k]);
        }
        assert(self.pixels@ =~= want.pixels);
    }

    /// The index of a square.
    pub open spec fn ix(&self, x: int, y: int) -> int {
        y * self.width + x
    }

    /// The square at `(x, y)`.
    pub open spec fn sq(&self, x: int, y: int) -> NegPixel {
        self.pixels@[self.ix(x, y)]
    }

    /// Whether `(x, y)` is a square of the grid.
    pub open spec fn on(&self, x: int, y: int) -> bool {
        0 <= x < self.width && 0 <= y < self.height
    }

    /// The tables have the right sizes.
    pub open spec fn shape(&self) -> bool {
        &&& self.width <= i32::MAX
        &&& self.height <= i32::MAX
        &&& self.pixels@.len() == self.width * self.height
        &&& self.row_sites@.len() == self.height
    }

    /// Whether some square of row `y` has capacity.
    pub open spec fn row_usable(&self, y: int) -> bool {
        exists|x: int| 0 <= x < self.width && (#[trigger] self.sq(x, y)).capacity > 0
    }

    /// The grid's invariant.
    pub open spec fn wf(&self) -> bool {
        &&& self.shape()
        &&& forall|x: int, y: int| #![trigger self.sq(x, y)] self.on(x, y) ==> {
            &&& self.sq(x, y).capacity == 0 || self.sq(x, y).capacity == 1
            &&& self.sq(x, y).usage > i32::MIN
            &&& self.sq(x, y).hist_cost >= 1
        }
        &&& forall|y: int| 0 <= y < self.height ==> #[trigger] self.row_sites@[y] == self.row_usable(y)
    }

    /// `self` is `o` with a change made to the squares of a footprint.
    pub open spec fn is_neg_stamped(&self, o: NegGrid, x: int, y: int, w: int, h: int, s: NegStamp) -> bool {
        &&& self.width == o.width
        &&& self.height == o.height
        &&& forall|gx: int, gy: int| #![trigger self.sq(gx, gy)] o.on(gx, gy) ==>
            self.sq(gx, gy) == if in_foot(x, y, w, h, gx, gy) { neg_stamped(o.sq(gx, gy), s) } else { o.sq(gx, gy) }
    }

    /// The index of a square is in range, and two squares have different indices.
    pub proof fn lemma_ix(&self, x: int, y: int)
        requires
            self.shape(),
            self.on(x, y),
        ensures
            0 <= self.ix(x, y) < self.pixels@.len(),
            self.ix(x, y) <= usize::MAX,
    {
        assert(0 <= y * self.width + x < self.width * self.height) by (nonlinear_arith)
            requires 0 <= x < self.width, 0 <= y < self.height;
        assert(self.pixels@.len() == self.pixels.len());
    }

    pub proof fn lemma_ix_distinct(&self, x: int, y: int, a: int, b: int)
        requires
            self.on(x, y),
            self.on(a, b),
            x != a || y != b,
        ensures
            self.ix(x, y) != self.ix(a, b),
    {
        let w = self.width as int;
        if y < b {
            assert(y * w + x < b * w + a) by (nonlinear_arith)
                requires y + 1 <= b, x < w, 0 <= a, 0 <= w;
        } else if b < y {
            assert(b * w + a < y * w + x) by (nonlinear_arith)
                requires b + 1 <= y, a < w, 0 <= x, 0 <= w;
        }
    }

    /// The square at `(x, y)`.
    pub fn at(&self, x: usize, y: usize) -> (r: &NegPixel)
        requires
            self.shape(),
            self.on(x as int, y as int),
        ensures
            *r == self.sq(x as int, y as int),
    {
        proof {
            self.lemma_ix(x as int, y as int);
            assert(y * self.width <= self.ix(x as int, y as int));
            assert(0 <= y * self.width) by (nonlinear_arith)
                requires y >= 0, self.width >= 0;
        }
        &self.pixels[y * self.width + x]
    }

    /// Change every square of a footprint, clipped to the grid.
    fn stamp(&mut self, x: i32, y: i32, w: i32, h: i32, s: NegStamp)
        requires
            old(self).shape(),
            forall|gx: int, gy: int| #![trigger old(self).sq(gx, gy)] old(self).on(gx, gy) && in_foot(x as int, y as int, w as int, h as int, gx, gy) ==>
                stamp_fits(old(self).sq(gx, gy), s),
        ensures
            final(self).shape(),
            final(self).row_sites == old(self).row_sites,
            final(self).is_neg_stamped(*old(self), x as int, y as int, w as int, h as int, s),
    {
        let ghost g0 = *self;
        let x0: i64 = max64(x as i64, 0);
        let y0: i64 = max64(y as i64, 0);
        let x1: i64 = min64(x as i64 + w as i64, self.width as i64);
        let y1: i64 = min64(y as i64 + h as i64, self.height as i64);
        let mut gy: i64 = y0;
        while gy < y1
            invariant
                self.shape(),
                g0.shape(),
                self.width == g0.width,
                self.height == g0.height,
                self.row_sites == g0.row_sites,
                x0 == imax(x as int, 0),
                y0 == imax(y as int, 0),
                x1 == imin(x + w, self.width as int),
                y1 == imin(y + h, self.height as int),
                y0 <= gy,
                gy <= y1 || gy == y0,
                forall|a: int, b: int| #![trigger g0.sq(a, b)] g0.on(a, b) && in_foot(x as int, y as int, w as int, h as int, a, b) ==>
                    stamp_fits(g0.sq(a, b), s),
                forall|a: int, b: int| #![trigger self.sq(a, b)] g0.on(a, b) ==>
                    self.sq(a, b) == if x0 <= a < x1 && y0 <= b < gy { neg_stamped(g0.sq(a, b), s) } else { g0.sq(a, b) },
            decreases y1 - gy,
        {
            let mut gx: i64 = x0;
            while gx < x1
                invariant
                    self.shape(),
                    g0.shape(),
                    self.width == g0.width,
                    self.height == g0.height,
                    self.row_sites == g0.row_sites,
                    x0 == imax(x as int, 0),
                    y0 == imax(y as int, 0),
                    x1 == imin(x + w, self.width as int),
                    y1 == imin(y + h, self.height as int),
                    y0 <= gy < y1,
                    x0 <= gx,
                    gx <= x1 || gx == x0,
                    forall|a: int, b: int| #![trigger g0.sq(a, b)] g0.on(a, b) && in_foot(x as int, y as int, w as int, h as int, a, b) ==>
                        stamp_fits(g0.sq(a, b), s),
                    forall|a: int, b: int| #![trigger self.sq(a, b)] g0.on(a, b) ==>
                        self.sq(a, b) == if x0 <= a < x1 && y0 <= b < gy || b == gy && x0 <= a < gx { neg_stamped(g0.sq(a, b), s) } else { g0.sq(a, b) },
                decreases x1 - gx,
            {
                let ghost before = *self;
                proof {
                    self.lemma_ix(gx as int, gy as int);
                    assert(0 <= gy * self.width) by (nonlinear_arith)
                        requires gy >= 0, self.width >= 0;
                    assert(g0.on(gx as int, gy as int));
                    assert(before.sq(gx as int, gy as int) == g0.sq(gx as int, gy as int));
                }
                let k: usize = gy as usize * self.width + gx as usize;
                let p = self.pixels[k];
                self.pixels[k] = neg_stamp_pixel(p, s);
                assert forall|a: int, b: int| #![trigger self.sq(a, b)] g0.on(a, b) implies
                    self.sq(a, b) == if x0 <= a < x1 && y0 <= b < gy || b == gy && x0 <= a < gx + 1 { neg_stamped(g0.sq(a, b), s) } else { g0.sq(a, b) } by {
                    before.lemma_ix(a, b);
                    if a != gx || b != gy {
                        before.lemma_ix_distinct(a, b, gx as int, gy as int);
                        assert(self.sq(a, b) == before.sq(a, b));
                    } else {
                        assert(self.sq(a, b) == neg_stamped(p, s));
                    }
                }
                gx = gx + 1;
            }
            gy = gy + 1;
        }
    }

    /// Note for each row whether it has a usable square.
    fn recompute_rows(&mut self)
        requires
            old(self).shape(),
        ensures
            final(self).shape(),
            final(self).width == old(self).width,
            final(self).height == old(self).height,
            final(self).pixels == old(self).pixels,
            forall|y: int| 0 <= y < final(self).height ==> #[trigger] final(self).row_sites@[y] == final(self).row_usable(y),
    {
        let ghost g0 = *self;
        let mut y: usize = 0;
        while y < self.height
            invariant
                self.shape(),
                self.width == g0.width,
                self.height == g0.height,
                self.pixels == g0.pixels,
                y <= self.height,
                forall|b: int| 0 <= b < y ==> #[trigger] self.row_sites@[b] == g0.row_usable(b),
            decreases self.height - y,
        {
            let mut any = false;
            let mut x: usize = 0;
            while x < self.width
                invariant
                    self.shape(),
                    self.width == g0.width,
                    self.height == g0.height,
                    self.pixels == g0.pixels,
                    y < self.height,
                    x <= self.width,
                    any == exists|a: int| 0 <= a < x && (#[trigger] g0.sq(a, y as int)).capacity > 0,
                decreases self.width - x,
            {
                let p = *self.at(x, y);
                assert(p == g0.sq(x as int, y as int));
                if p.capacity > 0 {
                    any = true;
                }
                x = x + 1;
            }
            assert(any == g0.row_usable(y as int));
            self.row_sites[y] = any;
            y = y + 1;
        }
        assert forall|b: int| 0 <= b < self.height implies #[trigger] self.row_sites@[b] == self.row_usable(b) by {
            assert(self.row_sites@[b] == g0.row_usable(b));
            if g0.row_usable(b) {
                let a = choose|a: int| 0 <= a < g0.width && (#[trigger] g0.sq(a, b)).capacity > 0;
                assert(self.sq(a, b).capacity > 0);
            }
            if self.row_usable(b) {
                let a = choose|a: int| 0 <= a < self.width && (#[trigger] self.sq(a, b)).capacity > 0;
                assert(g0.sq(a, b).capacity > 0);
            }
        }
    }

    /// A grid whose usable squares are those that `valid` names, unclaimed and at history price 1.
    pub fn build<F: Fn(usize, usize) -> bool>(width: usize, height: usize, valid: &F) -> (r: NegGrid)
        requires
            width <= i32::MAX,
            height <= i32::MAX,
            width * height <= usize::MAX,
            forall|a: usize, b: usize| #[trigger] valid.requires((a, b)),
        ensures
            r.wf(),
            r.width == width,
            r.height == height,
            forall|g: spec_fn(int, int) -> bool| #[trigger] agrees_at(*valid, g) ==>
                forall|x: int, y: int| #![trigger r.sq(x, y)] r.on(x, y) ==> r.sq(x, y) == (NegPixel {
                    usage: 0,
                    hist_cost: 1,
                    capacity: if g(x, y) { 1 } else { 0 },
                    cell: None,
                }),
            forall|x: int, y: int| #![trigger r.sq(x, y)] r.on(x, y) ==> r.sq(x, y).usage == 0 && r.sq(x, y).hist_cost == 1 && r.sq(x, y).cell is None,
    {
        let mut pixels: Vec<NegPixel> = Vec::new();
        let mut y: usize = 0;
        assert(0 * width == 0) by (nonlinear_arith);
        while y < height
            invariant
                y <= height,
                width <= i32::MAX,
                height <= i32::MAX,
                width * height <= usize::MAX,
                forall|a: usize, b: usize| #[trigger] valid.requires((a, b)),
                pixels@.len() == y * width,
                forall|k: int| 0 <= k < pixels@.len() ==> ({
                    let p = #[trigger] pixels@[k];
                    p.usage == 0 && p.hist_cost == 1 && p.cell is None && (p.capacity == 0 || p.capacity == 1)
                }),
                forall|g: spec_fn(int, int) -> bool| #[trigger] agrees_at(*valid, g) ==>
                    forall|a: int, b: int| #![trigger pixels@[b * width + a]] 0 <= a < width && 0 <= b < y ==>
                        (pixels@[b * width + a].capacity == 1) == g(a, b),
            decreases height - y,
        {
            let mut x: usize = 0;
            while x < width
                invariant
                    x <= width,
                    y < height,
                    width <= i32::MAX,
                    height <= i32::MAX,
                    width * height <= usize::MAX,
                    forall|a: usize, b: usize| #[trigger] valid.requires((a, b)),
                    pixels@.len() == y * width + x,
                    forall|k: int| 0 <= k < pixels@.len() ==> ({
                        let p = #[trigger] pixels@[k];
                        p.usage == 0 && p.hist_cost == 1 && p.cell is None && (p.capacity == 0 || p.capacity == 1)
                    }),
                    forall|g: spec_fn(int, int) -> bool| #[trigger] agrees_at(*valid, g) ==>
                        forall|a: int, b: int| #![trigger pixels@[b * width + a]] (0 <= a < width && 0 <= b < y) || (b == y && 0 <= a < x) ==>
                            (pixels@[b * width + a].capacity == 1) == g(a, b),
                decreases width - x,
            {
                let ghost before = pixels@;
                let v: bool = valid(x, y);
                pixels.push(NegPixel { usage: 0, hist_cost: 1, capacity: if v { 1 } else { 0 }, cell: None });
                assert forall|g: spec_fn(int, int) -> bool| #[trigger] agrees_at(*valid, g) implies
                    forall|a: int, b: int| #![trigger pixels@[b * width + a]] (0 <= a < width && 0 <= b < y) || (b == y && 0 <= a < x + 1) ==>
                        (pixels@[b * width + a].capacity == 1) == g(a, b) by {
                    assert(v == g(x as int, y as int));
                    assert forall|a: int, b: int| #![trigger pixels@[b * width + a]] (0 <= a < width && 0 <= b < y) || (b == y && 0 <= a < x + 1) implies
                        (pixels@[b * width + a].capacity == 1) == g(a, b) by {
                        if b < y {
                            assert(0 <= b * width + a < y * width) by (nonlinear_arith)
                                requires 0 <= a < width, 0 <= b, b + 1 <= y;
                            assert(pixels@[b * width + a] == before[b * width + a]);
                        } else if a < x {
                            assert(0 <= b * width) by (nonlinear_arith)
                                requires 0 <= b, 0 <= width;
                            assert(pixels@[b * width + a] == before[b * width + a]);
                        }
                    }
                }
                x = x + 1;
            }
            assert((y + 1) * width == y * width + width) by (nonlinear_arith);
            y = y + 1;
        }
        let mut rows: Vec<bool> = Vec::new();
        while rows.len() < height
            invariant
                rows@.len() <= height,
            decreases height - rows@.len(),
        {
            rows.push(false);
        }
        assert(height * width == width * height) by (nonlinear_arith);
        let mut g = NegGrid { width, height, pixels, row_sites: rows };
        let ghost g1 = g;
        g.recompute_rows();
        assert forall|a: int, b: int| #![trigger g.sq(a, b)] g.on(a, b) implies ({
            let p = g.sq(a, b);
            &&& p.usage == 0 && p.hist_cost == 1 && p.cell is None
            &&& p.capacity == 0 || p.capacity == 1
        }) by {
            g1.lemma_ix(a, b);
            assert(g.sq(a, b) == g1.pixels@[b * width + a]);
        }
        assert forall|f: spec_fn(int, int) -> bool| #[trigger] agrees_at(*valid, f) implies
            forall|a: int, b: int| #![trigger g.sq(a, b)] g.on(a, b) ==> g.sq(a, b) == (NegPixel {
                usage: 0,
                hist_cost: 1,
                capacity: if f(a, b) { 1 } else { 0 },
                cell: None,
            }) by {
            assert forall|a: int, b: int| #![trigger g.sq(a, b)] g.on(a, b) implies g.sq(a, b) == (NegPixel {
                usage: 0,
                hist_cost: 1,
                capacity: if f(a, b) { 1 } else { 0 },
                cell: None,
            }) by {
                g1.lemma_ix(a, b);
                assert((g1.pixels@[b * width + a].capacity == 1) == f(a, b));
                assert(g.sq(a, b) == g1.pixels@[b * width + a]);
            }
        }
        g
    }

    /// Take a fixed cell's footprint away: no capacity, one claim.
    pub fn blockade(&mut self, x: i32, y: i32, w: i32, h: i32)
        requires
            old(self).wf(),
        ensures
            final(self).wf(),
            final(self).is_neg_stamped(*old(self), x as int, y as int, w as int, h as int, NegStamp::Blockade),
            final(self).board() == old(self).board().stamp(x as int, y as int, w as int, h as int, NegStamp::Blockade),
    {
        let ghost g0 = *self;
        self.stamp(x, y, w, h, NegStamp::Blockade);
        let ghost g1 = *self;
        self.recompute_rows();
        assert forall|a: int, b: int| #![trigger self.sq(a, b)] g0.on(a, b) implies self.sq(a, b) == g1.sq(a, b) by {}
        assert forall|a: int, b: int| #![trigger self.sq(a, b)] self.on(a, b) implies {
            &&& self.sq(a, b).capacity == 0 || self.sq(a, b).capacity == 1
            &&& self.sq(a, b).usage > i32::MIN
            &&& self.sq(a, b).hist_cost >= 1
        } by {
            assert(g0.on(a, b));
            let p = g1.sq(a, b);
            let q = g0.sq(a, b);
        }
        proof {
            self.lemma_stamp_board(g0, x as int, y as int, w as int, h as int, NegStamp::Blockade);
        }
    }

    /// A row with no usable square hosts no cell.
    pub fn row_has_sites(&self, y: i32) -> (r: bool)
        requires
            self.wf(),
        ensures
            r == (0 <= y < self.height && self.row_usable(y as int)),
    {
        y >= 0 && (y as usize) < self.height && self.row_sites[y as usize]
    }

    /// Stamping that leaves capacities and prices alone keeps the invariant.
    proof fn lemma_keeps_wf(&self, o: NegGrid, x: int, y: int, w: int, h: int, s: NegStamp)
        requires
            o.wf(),
            self.shape(),
            self.row_sites == o.row_sites,
            self.is_neg_stamped(o, x, y, w, h, s),
            !(s is Blockade),
            forall|gx: int, gy: int| #![trigger o.sq(gx, gy)] o.on(gx, gy) && in_foot(x, y, w, h, gx, gy) ==>
                stamp_fits(o.sq(gx, gy), s),
        ensures
            self.wf(),
    {
        assert forall|a: int, b: int| #![trigger self.sq(a, b)] self.on(a, b) implies {
            &&& self.sq(a, b).capacity == 0 || self.sq(a, b).capacity == 1
            &&& self.sq(a, b).usage > i32::MIN
            &&& self.sq(a, b).hist_cost >= 1
        } by {
            assert(o.on(a, b));
            let q = o.sq(a, b);
        }
        assert forall|b: int| 0 <= b < self.height implies #[trigger] self.row_sites@[b] == self.row_usable(b) by {
            assert(o.row_sites@[b] == o.row_usable(b));
            if o.row_usable(b) {
                let a = choose|a: int| 0 <= a < o.width && (#[trigger] o.sq(a, b)).capacity > 0;
                assert(o.on(a, b));
                assert(self.sq(a, b).capacity > 0);
            }
            if self.row_usable(b) {
                let a = choose|a: int| 0 <= a < self.width && (#[trigger] self.sq(a, b)).capacity > 0;
                assert(o.on(a, b));
                assert(o.sq(a, b).capacity > 0);
            }
        }
    }

    /// Claims over a footprint come or go.
    pub fn add_usage(&mut self, x: i32, y: i32, w: i32, h: i32, delta: i32)
        requires
            old(self).wf(),
            forall|gx: int, gy: int| #![trigger old(self).sq(gx, gy)] old(self).on(gx, gy) && in_foot(x as int, y as int, w as int, h as int, gx, gy) ==>
                i32::MIN < old(self).sq(gx, gy).usage + delta <= i32::MAX,
        ensures
            final(self).wf(),
            final(self).row_sites == old(self).row_sites,
            final(self).is_neg_stamped(*old(self), x as int, y as int, w as int, h as int, NegStamp::Claim(delta)),
            final(self).board() == old(self).board().stamp(x as int, y as int, w as int, h as int, NegStamp::Claim(delta)),
    {
        let ghost g0 = *self;
        self.stamp(x, y, w, h, NegStamp::Claim(delta));
        proof {
            self.lemma_keeps_wf(g0, x as int, y as int, w as int, h as int, NegStamp::Claim(delta));
            self.lemma_stamp_board(g0, x as int, y as int, w as int, h as int, NegStamp::Claim(delta));
        }
    }

    /// Stamp a cell over its footprint, whatever was there.
    pub fn paint_cell(&mut self, idx: usize, x: i32, y: i32, w: i32, h: i32)
        requires
            old(self).wf(),
        ensures
            final(self).wf(),
            final(self).row_sites == old(self).row_sites,
            final(self).is_neg_stamped(*old(self), x as int, y as int, w as int, h as int, NegStamp::Paint(idx)),
            final(self).board() == old(self).board().stamp(x as int, y as int, w as int, h as int, NegStamp::Paint(idx)),
    {
        let ghost g0 = *self;
        self.stamp(x, y, w, h, NegStamp::Paint(idx));
        proof {
            self.lemma_keeps_wf(g0, x as int, y as int, w as int, h as int, NegStamp::Paint(idx));
            self.lemma_stamp_board(g0, x as int, y as int, w as int, h as int, NegStamp::Paint(idx));
        }
    }

    /// Clear a cell's own stamp over its footprint.
    pub fn erase_cell(&mut self, idx: usize, x: i32, y: i32, w: i32, h: i32)
        requires
            old(self).wf(),
        ensures
            final(self).wf(),
            final(self).row_sites == old(self).row_sites,
            final(self).is_neg_stamped(*old(self), x as int, y as int, w as int, h as int, NegStamp::Erase(idx)),
            final(self).board() == old(self).board().stamp(x as int, y as int, w as int, h as int, NegStamp::Erase(idx)),
    {
        let ghost g0 = *self;
        self.stamp(x, y, w, h, NegStamp::Erase(idx));
        proof {
            self.lemma_keeps_wf(g0, x as int, y as int, w as int, h as int, NegStamp::Erase(idx));
            self.lemma_stamp_board(g0, x as int, y as int, w as int, h as int, NegStamp::Erase(idx));
        }
    }

    /// The cell stamped on a square, `None` off the grid or where nothing is stamped.
    pub fn occupant(&self, x: i32, y: i32) -> (r: Option<usize>)
        requires
            self.shape(),
        ensures
            r == if self.on(x as int, y as int) { self.sq(x as int, y as int).cell } else { None },
    {
        if x < 0 || y < 0 || x as usize >= self.width || y as usize >= self.height {
            return None;
        }
        self.at(x as usize, y as usize).cell
    }

    /// Total overuse across the grid: zero is what the negotiation converges to.
    pub fn total_overuse(&self) -> (r: i32)
        requires
            self.wf(),
            overuse_sum(self.pixels@) <= i32::MAX,
        ensures
            r == overuse_sum(self.pixels@),
    {
        let mut n: i32 = 0;
        let mut k: usize = 0;
        while k < self.pixels.len()
            invariant
                self.wf(),
                overuse_sum(self.pixels@) <= i32::MAX,
                k <= self.pixels@.len(),
                n == overuse_sum(self.pixels@.subrange(0, k as int)),
            decreases self.pixels@.len() - k,
        {
            proof {
                assert(self.pixels@.subrange(0, k + 1).drop_last() =~= self.pixels@.subrange(0, k as int));
                lemma_overuse_sum_mono(self.pixels@, k + 1);
                lemma_overuse_sum_nonneg(self.pixels@.subrange(0, k as int));
                self.lemma_cell_of(k as int);
                assert(self.sq(k as int % self.width as int, k as int / self.width as int) == self.pixels@[k as int]);
            }
            n = n + self.pixels[k].overuse();
            k = k + 1;
        }
        assert(self.pixels@.subrange(0, k as int) =~= self.pixels@);
        n
    }
}

/// Claiming a footprint and giving the claim up again restores every square.
pub proof fn law_claim_then_release(p: NegPixel)
    requires
        p.usage < i32::MAX,
    ensures
        neg_stamped(neg_stamped(p, NegStamp::Claim(1)), NegStamp::Claim(-1i32)) == p,
{
}

/// A later painter takes the stamp, and a cell erases only its own.
pub proof fn law_stamps(p: NegPixel, a: usize, b: usize)
    requires
        a != b,
    ensures
        neg_stamped(neg_stamped(p, NegStamp::Paint(a)), NegStamp::Paint(b)).cell == Some(b),
        neg_stamped(neg_stamped(p, NegStamp::Paint(b)), NegStamp::Erase(a)).cell == Some(b),
        neg_stamped(neg_stamped(p, NegStamp::Paint(a)), NegStamp::Erase(a)).cell is None,
        neg_stamped(p, NegStamp::Paint(a)).usage == p.usage,
{
}

/// Whether some footprint names the square.
pub open spec fn touched(footprints: Seq<Vec<usize>>, k: int) -> bool {
    exists|i: int, j: int| 0 <= i < footprints.len() && 0 <= j < footprints[i]@.len() && #[trigger] footprints[i]@[j] == k
}

/// Make contested squares dearer: each square that some footprint names pays once for its overuse,
/// however many footprints name it.
pub fn update_history_costs(pixels: &mut [NegPixel], footprints: &[Vec<usize>])
    requires
        forall|i: int, j: int| 0 <= i < footprints@.len() && 0 <= j < footprints@[i]@.len() ==> #[trigger] footprints@[i]@[j] < old(pixels)@.len(),
        forall|k: int| 0 <= k < old(pixels)@.len() ==> {
            &&& (#[trigger] old(pixels)@[k]).usage > i32::MIN
            &&& old(pixels)@[k].hist_cost + old(pixels)@[k].over() <= i64::MAX
        },
    ensures
        final(pixels)@.len() == old(pixels)@.len(),
        forall|k: int| 0 <= k < old(pixels)@.len() ==> #[trigger] final(pixels)@[k] == (NegPixel {
            hist_cost: (old(pixels)@[k].hist_cost + if touched(footprints@, k) { old(pixels)@[k].over() } else { 0 }) as i64,
            ..old(pixels)@[k]
        }),
{
    let ghost p0 = pixels@;
    let n: usize = pixels.len();
    let mut seen: Vec<bool> = Vec::new();
    while seen.len() < n
        invariant
            seen@.len() <= n,
            forall|k: int| 0 <= k < seen@.len() ==> !seen@[k],
        decreases n - seen@.len(),
    {
        seen.push(false);
    }
    let mut i: usize = 0;
    while i < footprints.len()
        invariant
            i <= footprints@.len(),
            n == p0.len(),
            pixels@.len() == n,
            seen@.len() == n,
            forall|a: int, b: int| 0 <= a < footprints@.len() && 0 <= b < footprints@[a]@.len() ==> #[trigger] footprints@[a]@[b] < p0.len(),
            forall|k: int| 0 <= k < n ==> (#[trigger] p0[k]).usage > i32::MIN && p0[k].hist_cost + p0[k].over() <= i64::MAX,
            forall|k: int| 0 <= k < n ==> #[trigger] seen@[k] == exists|a: int, b: int| 0 <= a < i && 0 <= b < footprints@[a]@.len() && #[trigger] footprints@[a]@[b] == k,
            forall|k: int| 0 <= k < n ==> #[trigger] pixels@[k] == (NegPixel {
                hist_cost: (p0[k].hist_cost + if seen@[k] { p0[k].over() } else { 0 }) as i64,
                ..p0[k]
            }),
        decreases footprints@.len() - i,
    {
        let fp = &footprints[i];
        let mut j: usize = 0;
        while j < fp.len()
            invariant
                i < footprints@.len(),
                fp == footprints@[i as int],
                j <= fp@.len(),
                n == p0.len(),
                pixels@.len() == n,
                seen@.len() == n,
                forall|a: int, b: int| 0 <= a < footprints@.len() && 0 <= b < footprints@[a]@.len() ==> #[trigger] footprints@[a]@[b] < p0.len(),
                forall|k: int| 0 <= k < n ==> (#[trigger] p0[k]).usage > i32::MIN && p0[k].hist_cost + p0[k].over() <= i64::MAX,
                forall|k: int| 0 <= k < n ==> #[trigger] seen@[k] == exists|a: int, b: int| (0 <= a < i || a == i && b < j) && 0 <= b < footprints@[a]@.len() && #[trigger] footprints@[a]@[b] == k,
                forall|k: int| 0 <= k < n ==> #[trigger] pixels@[k] == (NegPixel {
                    hist_cost: (p0[k].hist_cost + if seen@[k] { p0[k].over() } else { 0 }) as i64,
                    ..p0[k]
                }),
            decreases fp@.len() - j,
        {
            let pid: usize = fp[j];
            let ghost seen0 = seen@;
            assert(footprints@[i as int]@[j as int] == pid);
            if !seen[pid] {
                seen[pid] = true;
                let ov: i32 = pixels[pid].overuse();
                if ov > 0 {
                    let mut p = pixels[pid];
                    p.hist_cost = p.hist_cost + HIST_INCREMENT * ov as i64;
                    pixels[pid] = p;
                }
            }
            assert forall|k: int| 0 <= k < n implies #[trigger] seen@[k] == exists|a: int, b: int| (0 <= a < i || a == i && b < j + 1) && 0 <= b < footprints@[a]@.len() && #[trigger] footprints@[a]@[b] == k by {
                if k == pid {
                    assert(footprints@[i as int]@[j as int] == k);
                } else {
                    assert(seen@[k] == seen0[k]);
                }
            }
            j = j + 1;
        }
        i = i + 1;
    }
    assert forall|k: int| 0 <= k < n implies #[trigger] pixels@[k] == (NegPixel {
        hist_cost: (p0[k].hist_cost + if touched(footprints@, k) { p0[k].over() } else { 0 }) as i64,
        ..p0[k]
    }) by {
        assert(seen@[k] == touched(footprints@, k));
    }
}

} // verus!
