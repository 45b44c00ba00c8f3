//! The placement grid: one square per site and row band.
//!
//! Everything is core-relative. Grid rows are the bands between the distinct Y boundaries of the
//! design's rows, so a row of the design contributes its origin and its top edge, and rows of
//! different heights can be mixed.

use vstd::prelude::*;
use crate::arith::{ceil_quot, dist, distance, div_ceil, div_round, div_trunc, imax, imin, max64, min64, round_quot, trunc_quot};
use crate::text::same_text;

verus! {

/// One grid square.
#[derive(Debug, Clone, Copy, PartialEq, Eq, Structural)]
pub struct Pixel {
    /// A row covers this square, and no hard blockage has taken it away.
    pub is_valid: bool,
    /// A cell sits here.
    pub occupied: bool,
    /// Which cell sits here, as an index into the caller's cell table.
    pub cell: Option<u32>,
    /// The cell whose padding claims this square without its body covering it.
    pub padding_reserved_by: Option<u32>,
    /// Bitmask of routing levels blocked here, `1 << level`.
    pub blocked_layers: u32,
    /// The placement group whose region covers this square.
    pub group: Option<usize>,
}

/// A square nothing covers.
pub open spec fn empty_pixel() -> Pixel {
    Pixel { is_valid: false, occupied: false, cell: None, padding_reserved_by: None, blocked_layers: 0, group: None }
}

impl Default for Pixel {
    fn default() -> (r: Pixel)
        ensures
            r == empty_pixel(),
    {
        Pixel { is_valid: false, occupied: false, cell: None, padding_reserved_by: None, blocked_layers: 0, group: None }
    }
}

/// The placement grid.
pub struct Grid {
    /// The core area, absolute: x and y of its lower left and upper right corners.
    pub core: (i32, i32, i32, i32),
    pub site_width: i32,
    pub row_count: usize,
    pub row_site_count: usize,
    /// The squares, by row and then by site.
    pub pixels: Vec<Vec<Pixel>>,
    /// Per grid row, the site names valid there, by x interval `[lo, hi)`.
    pub row_sites: Vec<Vec<(usize, usize, String)>>,
    /// Y of each grid row boundary.
    pub row_y: Vec<i32>,
    /// The orientation each grid row imposes on a cell placed in it.
    pub row_orient: Vec<String>,
    /// Whether any special wire was recorded in `blocked_layers`.
    pub blocked_layers_populated: bool,
}

/// Strictly increasing.
pub open spec fn increasing(s: Seq<i32>) -> bool {
    forall|i: int, j: int| 0 <= i < j < s.len() ==> s[i] < s[j]
}

/// The number of squares of a row with some property.
pub open spec fn count_in_row(row: Seq<Pixel>, p: spec_fn(Pixel) -> bool) -> nat
    decreases row.len(),
{
    if row.len() == 0 {
        0
    } else {
        count_in_row(row.drop_last(), p) + (if p(row.last()) { 1nat } else { 0nat })
    }
}

/// The number of squares of a grid with some property.
pub open spec fn count_in_rows(rows: Seq<Vec<Pixel>>, p: spec_fn(Pixel) -> bool) -> nat
    decreases rows.len(),
{
    if rows.len() == 0 {
        0
    } else {
        count_in_rows(rows.drop_last(), p) + count_in_row(rows.last()@, p)
    }
}

proof fn lemma_count_in_row_bound(row: Seq<Pixel>, p: spec_fn(Pixel) -> bool)
    ensures
        count_in_row(row, p) <= row.len(),
    decreases row.len(),
{
    if row.len() > 0 {
        lemma_count_in_row_bound(row.drop_last(), p);
    }
}

/// `i` is the first index of the entry nearest to `y`, and 0 in an empty list.
pub open spec fn is_nearest(s: Seq<i32>, y: int, i: int) -> bool {
    if s.len() == 0 {
        i == 0
    } else {
        &&& 0 <= i < s.len()
        &&& forall|j: int| 0 <= j < s.len() ==> dist(s[i] as int, y) <= dist(#[trigger] s[j] as int, y)
        &&& forall|j: int| 0 <= j < i ==> dist(s[i] as int, y) < dist(#[trigger] s[j] as int, y)
    }
}

/// The first index of the entry nearest to `y`.
pub open spec fn nearest_ix(s: Seq<i32>, y: int) -> int {
    choose|i: int| is_nearest(s, y, i)
}

pub proof fn lemma_nearest_unique(s: Seq<i32>, y: int, i: int)
    requires
        is_nearest(s, y, i),
    ensures
        nearest_ix(s, y) == i,
{
    let k = nearest_ix(s, y);
    if k < i {
        assert(dist(s[i] as int, y) < dist(s[k] as int, y));
    } else if i < k {
        assert(dist(s[k] as int, y) < dist(s[i] as int, y));
    }
}

/// The first index of the entry nearest to `y`.
pub fn nearest_row(row_y: &[i32], y: i64) -> (r: usize)
    requires
        -0x1_0000_0000 <= y <= 0x1_0000_0000,
    ensures
        is_nearest(row_y@, y as int, r as int),
        r == nearest_ix(row_y@, y as int),
{
    let mut best: usize = 0;
    let mut i: usize = 1;
    while i < row_y.len()
        invariant
            1 <= i,
            i <= row_y@.len() || row_y@.len() == 0,
            best < i,
            best < row_y@.len() || row_y@.len() == 0,
            row_y@.len() == 0 ==> best == 0,
            -0x1_0000_0000 <= y <= 0x1_0000_0000,
            forall|j: int| 0 <= j < i && j < row_y@.len() ==> dist(row_y@[best as int] as int, y as int) <= dist(#[trigger] row_y@[j] as int, y as int),
            forall|j: int| 0 <= j < best ==> dist(row_y@[best as int] as int, y as int) < dist(#[trigger] row_y@[j] as int, y as int),
        decreases row_y@.len() - i,
    {
        if distance(row_y[i] as i64, y) < distance(row_y[best] as i64, y) {
            best = i;
        }
        i = i + 1;
    }
    proof {
        lemma_nearest_unique(row_y@, y as int, best as int);
    }
    best
}

/// Whether the site named `site` is offered at column `x` of a row with these intervals.
pub open spec fn offers(row: Seq<(usize, usize, String)>, x: int, site: Seq<char>) -> bool {
    exists|k: int| 0 <= k < row.len() && (#[trigger] row[k]).0 <= x < row[k].1 && row[k].2@ == site
}

/// The height a table gives a site, 0 for one it does not list.
pub open spec fn height_of(heights: Seq<(String, i32)>, site: Seq<char>) -> int {
    match crate::regions::looked_up(heights, site, heights.len() as int) {
        Some(h) => h as int,
        None => 0,
    }
}

/// The height a table gives a site, 0 for one it does not list.
pub fn site_height(heights: &Vec<(String, i32)>, site: &str) -> (r: i32)
    ensures
        r == height_of(heights@, site@),
{
    match crate::regions::look_up(heights, site) {
        Some(h) => h,
        None => 0,
    }
}

impl Grid {
    /// The grid's invariant: its tables have one entry per row, its boundaries rise, and its
    /// extent fits the coordinate type.
    pub open spec fn wf(&self) -> bool {
        &&& self.site_width > 0
        &&& self.row_count <= i32::MAX
        &&& self.row_site_count <= i32::MAX
        &&& self.row_site_count * self.site_width <= i32::MAX
        &&& self.row_count * self.row_site_count <= usize::MAX
        &&& self.pixels@.len() == self.row_count
        &&& self.row_sites@.len() == self.row_count
        &&& self.row_orient@.len() == self.row_count
        &&& self.row_y@.len() == self.row_count + 1
        &&& increasing(self.row_y@)
        &&& self.row_y@[self.row_count as int] - self.row_y@[0] <= i32::MAX
        &&& forall|i: int| 0 <= i < self.row_count ==> (#[trigger] self.pixels@[i])@.len() == self.row_site_count
        &&& forall|i: int, k: int| 0 <= i < self.row_count && 0 <= k < self.row_sites@[i]@.len() ==>
            (#[trigger] self.row_sites@[i]@[k]).1 <= self.row_site_count
    }

    /// The row boundaries rise, one more than there are rows.
    pub open spec fn rows_ok(&self) -> bool {
        self.row_y@.len() == self.row_count + 1 && increasing(self.row_y@)
    }

    /// Whether `(x, y)` is a square of the grid.
    pub open spec fn inside(&self, x: int, y: int) -> bool {
        0 <= x < self.row_site_count && 0 <= y < self.row_count
    }

    /// The square at `(x, y)`, for squares of the grid.
    pub open spec fn px(&self, x: int, y: int) -> Pixel {
        self.pixels@[y]@[x]
    }

    /// Two grids that differ in nothing but the contents of their squares.
    pub open spec fn same_frame(&self, o: Grid) -> bool {
        &&& self.core == o.core
        &&& self.site_width == o.site_width
        &&& self.row_count == o.row_count
        &&& self.row_site_count == o.row_site_count
        &&& self.row_sites == o.row_sites
        &&& self.row_y == o.row_y
        &&& self.row_orient == o.row_orient
        &&& self.blocked_layers_populated == o.blocked_layers_populated
    }

    /// The grid row whose band holds `y`.
    pub open spec fn in_band(&self, i: int, y: int) -> bool {
        0 <= i < self.row_count && self.row_y@[i] <= y < self.row_y@[i + 1]
    }

    /// The grid row whose band holds `y`, if there is one.
    pub open spec fn band_of(&self, y: int) -> Option<int> {
        if exists|i: int| self.in_band(i, y) {
            Some(choose|i: int| self.in_band(i, y))
        } else {
            None
        }
    }

    /// `i` is the last row starting at or below `y`; below the first row it is row 0.
    pub open spec fn is_snap_down(&self, i: int, y: int) -> bool {
        &&& 0 <= i < self.row_count
        &&& i == 0 || self.row_y@[i] <= y
        &&& i + 1 < self.row_count ==> y < self.row_y@[i + 1]
    }

    /// The row a Y falls in, snapping down.
    pub open spec fn snap_down(&self, y: int) -> int {
        choose|i: int| self.is_snap_down(i, y)
    }

    /// The last of the boundaries up to the `i`th at or below a Y, boundary 0 if none is.
    pub open spec fn boundary_down(&self, y: int, i: int) -> int
        decreases i,
    {
        if i <= 0 { 0 } else if self.row_y@[i] <= y { i } else { self.boundary_down(y, i - 1) }
    }

    /// `i` is the first boundary at or above `top`; past the last boundary it is `row_count`.
    pub open spec fn is_end_row(&self, i: int, top: int) -> bool {
        &&& 0 <= i <= self.row_count
        &&& forall|j: int| 0 <= j < i ==> self.row_y@[j] < top
        &&& i == self.row_count || self.row_y@[i] >= top
    }

    /// The last row boundary at or below a Y, and the first boundary where there is none.
    pub fn grid_boundary_down_y(&self, y: i32) -> (r: usize)
        requires
            self.wf(),
        ensures
            r == self.boundary_down(y as int, self.row_count as int),
            r <= self.row_count,
    {
        let mut i: usize = self.row_count;
        while i > 0 && self.row_y[i] > y
            invariant
                self.wf(),
                i <= self.row_count,
                self.boundary_down(y as int, self.row_count as int) == self.boundary_down(y as int, i as int),
            decreases i,
        {
            i = i - 1;
        }
        i
    }

    /// The row past the last one that a cell whose top edge is `top` covers.
    pub open spec fn end_row(&self, top: int) -> int {
        choose|i: int| self.is_end_row(i, top)
    }

    /// The Y of boundary `y`, and 0 past the last boundary.
    pub open spec fn boundary_y(&self, y: int) -> int {
        let k = imax(y, 0);
        if k < self.row_y@.len() { self.row_y@[k] as int } else { 0 }
    }

    /// The squares a cell occupies: `x` toward zero to a site and the width upward in sites, the
    /// Y snapped down to a row and the top measured from that row.
    pub open spec fn cover(&self, x: int, y: int, w: int, h: int) -> (int, int, int, int) {
        let xlo = trunc_quot(x, self.site_width as int);
        let xhi = xlo + imax(ceil_quot(w, self.site_width as int), 1);
        if self.row_count == 0 {
            (xlo, -1, xhi, -1)
        } else {
            let ylo = self.snap_down(y);
            (xlo, ylo, xhi, imax(self.end_row(self.row_y@[ylo] + h), ylo + 1))
        }
    }

    /// How many rows a cell of height `h` starting at `y` spans.
    pub open spec fn span(&self, y: int, h: int) -> int {
        match self.band_of(y) {
            None => 1,
            Some(lo) => match self.band_of(y + h - 1) {
                None => 1,
                Some(hi) => hi - lo + 1,
            },
        }
    }

    /// The height of every row, where they all have the same.
    pub open spec fn row_height(&self) -> Option<int> {
        if self.row_count >= 1 && (forall|i: int| 0 <= i < self.row_count ==>
            #[trigger] self.row_y@[i + 1] - self.row_y@[i] == self.row_y@[1] - self.row_y@[0]) {
            Some(self.row_y@[1] - self.row_y@[0])
        } else {
            None
        }
    }

    pub proof fn lemma_band_unique(&self, i: int, y: int)
        requires
            self.rows_ok(),
            self.in_band(i, y),
        ensures
            self.band_of(y) == Some(i),
    {
        let k = choose|k: int| self.in_band(k, y);
        if k < i {
            assert(self.row_y@[k + 1] <= self.row_y@[i]);
        } else if i < k {
            assert(self.row_y@[i + 1] <= self.row_y@[k]);
        }
    }

    /// A cell of positive height spans at least one row.
    pub proof fn law_span_is_positive(&self, y: int, h: int)
        requires
            self.wf(),
            h >= 1,
        ensures
            self.span(y, h) >= 1,
    {
        if self.band_of(y) is Some && self.band_of(y + h - 1) is Some {
            let lo = choose|i: int| self.in_band(i, y);
            let hi = choose|i: int| #[trigger] self.in_band(i, y + h - 1);
            if hi < lo {
                assert(self.row_y@[hi + 1] <= self.row_y@[lo]);
            }
        }
    }

    /// Some row is the last one starting at or below a Y.
    proof fn lemma_snap_exists(&self, k: int, y: int)
        requires
            self.rows_ok(),
            0 <= k < self.row_count,
            k + 1 < self.row_count ==> y < self.row_y@[k + 1],
        ensures
            exists|i: int| self.is_snap_down(i, y),
        decreases k,
    {
        if k == 0 || self.row_y@[k] <= y {
            assert(self.is_snap_down(k, y));
        } else {
            self.lemma_snap_exists(k - 1, y);
        }
    }

    /// Some boundary is the first at or above a Y.
    proof fn lemma_end_exists(&self, k: int, top: int)
        requires
            self.rows_ok(),
            0 <= k <= self.row_count,
            forall|j: int| 0 <= j < k ==> self.row_y@[j] < top,
        ensures
            exists|i: int| self.is_end_row(i, top),
        decreases self.row_count - k,
    {
        if k == self.row_count || self.row_y@[k] >= top {
            assert(self.is_end_row(k, top));
        } else {
            self.lemma_end_exists(k + 1, top);
        }
    }

    /// The row past a top is the first boundary at or above it.
    pub proof fn lemma_end_is(&self, top: int)
        requires
            self.rows_ok(),
        ensures
            self.is_end_row(self.end_row(top), top),
    {
        self.lemma_end_exists(0, top);
    }

    /// The row of a Y is the last one that starts at or below it.
    pub proof fn lemma_snap_is(&self, y: int)
        requires
            self.rows_ok(),
            self.row_count > 0,
        ensures
            self.is_snap_down(self.snap_down(y), y),
    {
        self.lemma_snap_exists(self.row_count - 1, y);
    }

    /// Rows depend on the frame alone.
    pub proof fn lemma_same_rows(&self, o: Grid, y: int)
        requires
            self.rows_ok(),
            self.same_frame(o),
        ensures
            self.band_of(y) == o.band_of(y),
            self.row_count > 0 ==> self.snap_down(y) == o.snap_down(y),
            self.end_row(y) == o.end_row(y),
    {
        if exists|i: int| self.in_band(i, y) {
            let i = choose|i: int| self.in_band(i, y);
            assert(o.in_band(i, y));
            self.lemma_band_unique(i, y);
            o.lemma_band_unique(i, y);
        } else if exists|i: int| o.in_band(i, y) {
            let i = choose|i: int| o.in_band(i, y);
            assert(self.in_band(i, y));
        }
        if self.row_count > 0 {
            self.lemma_snap_exists(self.row_count - 1, y);
            let i = self.snap_down(y);
            assert(o.is_snap_down(i, y));
            o.lemma_snap_unique(i, y);
        }
        self.lemma_end_exists(0, y);
        let i = self.end_row(y);
        assert(o.is_end_row(i, y));
        o.lemma_end_unique(i, y);
    }

    pub proof fn lemma_snap_unique(&self, i: int, y: int)
        requires
            self.rows_ok(),
            self.is_snap_down(i, y),
        ensures
            self.snap_down(y) == i,
    {
        let k = self.snap_down(y);
        if k < i {
            assert(self.row_y@[k + 1] <= self.row_y@[i]);
        } else if i < k {
            assert(self.row_y@[i + 1] <= self.row_y@[k]);
        }
    }

    pub proof fn lemma_end_unique(&self, i: int, top: int)
        requires
            self.rows_ok(),
            self.is_end_row(i, top),
        ensures
            self.end_row(top) == i,
    {
        let k = self.end_row(top);
        if k < i {
            assert(self.row_y@[k] < top);
        } else if i < k {
            assert(self.row_y@[i] < top);
        }
    }

    /// Whether the blocked-layer masks were populated, and how many squares have one.
    pub fn blocked_layer_status(&self) -> (r: (bool, usize))
        requires
            self.wf(),
        ensures
            r.0 == self.blocked_layers_populated,
            r.1 == count_in_rows(self.pixels@, |p: Pixel| p.blocked_layers != 0),
    {
        let mut n: usize = 0;
        let mut y: usize = 0;
        let ghost pred = |p: Pixel| p.blocked_layers != 0;
        while y < self.row_count
            invariant
                self.wf(),
                y <= self.row_count,
                pred == (|p: Pixel| p.blocked_layers != 0),
                n == count_in_rows(self.pixels@.subrange(0, y as int), pred),
                n <= y * self.row_site_count,
            decreases self.row_count - y,
        {
            let ghost n0 = n;
            let ghost row = self.pixels@[y as int]@;
            proof {
                assert(y * self.row_site_count + self.row_site_count <= self.row_count * self.row_site_count) by (nonlinear_arith)
                    requires y < self.row_count;
            }
            let mut x: usize = 0;
            while x < self.row_site_count
                invariant
                    self.wf(),
                    y < self.row_count,
                    x <= self.row_site_count,
                    pred == (|p: Pixel| p.blocked_layers != 0),
                    row == self.pixels@[y as int]@,
                    n == n0 + count_in_row(row.subrange(0, x as int), pred),
                    count_in_row(row.subrange(0, x as int), pred) <= x,
                    n0 <= y * self.row_site_count,
                    y * self.row_site_count + self.row_site_count <= self.row_count * self.row_site_count,
                    self.row_count * self.row_site_count <= usize::MAX,
                decreases self.row_site_count - x,
            {
                assert(row.subrange(0, x + 1).drop_last() =~= row.subrange(0, x as int));
                assert(row.subrange(0, x + 1).last() == row[x as int]);
                if self.pixels[y][x].blocked_layers != 0 {
                    n = n + 1;
                }
                x = x + 1;
            }
            assert(row.subrange(0, x as int) =~= row);
            assert(self.pixels@.subrange(0, y + 1).drop_last() =~= self.pixels@.subrange(0, y as int));
            assert(n <= (y + 1) * self.row_site_count) by (nonlinear_arith)
                requires n <= y * self.row_site_count + self.row_site_count;
            y = y + 1;
        }
        assert(self.pixels@.subrange(0, y as int) =~= self.pixels@);
        (self.blocked_layers_populated, n)
    }

    /// How many squares are usable.
    pub fn valid_sites(&self) -> (r: usize)
        requires
            self.wf(),
        ensures
            r == count_in_rows(self.pixels@, |p: Pixel| p.is_valid),
    {
        let mut n: usize = 0;
        let mut y: usize = 0;
        let ghost pred = |p: Pixel| p.is_valid;
        while y < self.row_count
            invariant
                self.wf(),
                y <= self.row_count,
                pred == (|p: Pixel| p.is_valid),
                n == count_in_rows(self.pixels@.subrange(0, y as int), pred),
                n <= y * self.row_site_count,
            decreases self.row_count - y,
        {
            let ghost n0 = n;
            let ghost row = self.pixels@[y as int]@;
            proof {
                assert(y * self.row_site_count + self.row_site_count <= self.row_count * self.row_site_count) by (nonlinear_arith)
                    requires y < self.row_count;
            }
            let mut x: usize = 0;
            while x < self.row_site_count
                invariant
                    self.wf(),
                    y < self.row_count,
                    x <= self.row_site_count,
                    pred == (|p: Pixel| p.is_valid),
                    row == self.pixels@[y as int]@,
                    n == n0 + count_in_row(row.subrange(0, x as int), pred),
                    count_in_row(row.subrange(0, x as int), pred) <= x,
                    n0 <= y * self.row_site_count,
                    y * self.row_site_count + self.row_site_count <= self.row_count * self.row_site_count,
                    self.row_count * self.row_site_count <= usize::MAX,
                decreases self.row_site_count - x,
            {
                assert(row.subrange(0, x + 1).drop_last() =~= row.subrange(0, x as int));
                assert(row.subrange(0, x + 1).last() == row[x as int]);
                if self.pixels[y][x].is_valid {
                    n = n + 1;
                }
                x = x + 1;
            }
            assert(row.subrange(0, x as int) =~= row);
            assert(self.pixels@.subrange(0, y + 1).drop_last() =~= self.pixels@.subrange(0, y as int));
            assert(n <= (y + 1) * self.row_site_count) by (nonlinear_arith)
                requires n <= y * self.row_site_count + self.row_site_count;
            y = y + 1;
        }
        assert(self.pixels@.subrange(0, y as int) =~= self.pixels@);
        n
    }

    /// Grid rows whose Y band meets `[ylo, yhi)`.
    pub fn grid_rows_covering(&self, ylo: i64, yhi: i64) -> (r: Vec<usize>)
        requires
            self.wf(),
        ensures
            forall|k: int| 0 <= k < r@.len() ==> 0 <= #[trigger] r@[k] < self.row_count && self.row_y@[r@[k] as int] < yhi && self.row_y@[r@[k] + 1] > ylo,
            forall|i: usize| 0 <= i < self.row_count && self.row_y@[i as int] < yhi && self.row_y@[i + 1] > ylo ==> #[trigger] r@.contains(i),
            forall|a: int, b: int| 0 <= a < b < r@.len() ==> r@[a] < r@[b],
    {
        let mut out: Vec<usize> = Vec::new();
        let mut i: usize = 0;
        while i < self.row_count
            invariant
                self.wf(),
                i <= self.row_count,
                forall|k: int| 0 <= k < out@.len() ==> 0 <= #[trigger] out@[k] < i && self.row_y@[out@[k] as int] < yhi && self.row_y@[out@[k] + 1] > ylo,
                forall|j: usize| 0 <= j < i && self.row_y@[j as int] < yhi && self.row_y@[j + 1] > ylo ==> #[trigger] out@.contains(j),
                forall|a: int, b: int| 0 <= a < b < out@.len() ==> out@[a] < out@[b],
            decreases self.row_count - i,
        {
            if (self.row_y[i] as i64) < yhi && self.row_y[i + 1] as i64 > ylo {
                let ghost before = out@;
                out.push(i);
                assert(out@[before.len() as int] == i);
                assert forall|j: usize| 0 <= j < i + 1 && self.row_y@[j as int] < yhi && self.row_y@[j + 1] > ylo implies #[trigger] out@.contains(j) by {
                    if j < i {
                        assert(before.contains(j));
                        let k = choose|k: int| 0 <= k < before.len() && before[k] == j;
                        assert(out@[k] == j);
                    }
                }
            }
            i = i + 1;
        }
        out
    }

    /// The square at `(x, y)`, `None` outside the grid.
    pub fn pixel(&self, x: i64, y: i64) -> (r: Option<&Pixel>)
        requires
            self.wf(),
        ensures
            r is Some <==> self.inside(x as int, y as int),
            r matches Some(p) ==> *p == self.px(x as int, y as int),
    {
        if x < 0 || y < 0 || y >= self.row_count as i64 || x >= self.row_site_count as i64 {
            return None;
        }
        Some(&self.pixels[y as usize][x as usize])
    }

    /// Is `site` one of the sites valid at this square?
    pub fn site_valid_at(&self, x: i64, y: i64, site: &str) -> (r: bool)
        requires
            self.wf(),
        ensures
            r == (0 <= y < self.row_count && offers(self.row_sites@[y as int]@, x as int, site@)),
    {
        if y < 0 || y >= self.row_count as i64 {
            return false;
        }
        let row = &self.row_sites[y as usize];
        let mut k: usize = 0;
        while k < row.len()
            invariant
                k <= row@.len(),
                0 <= y < self.row_count,
                row == self.row_sites@[y as int],
                self.row_site_count <= i32::MAX,
                forall|j: int| 0 <= j < row@.len() ==> (#[trigger] row@[j]).1 <= self.row_site_count,
                forall|j: int| 0 <= j < k ==> !((#[trigger] row@[j]).0 <= x < row@[j].1 && row@[j].2@ == site@),
            decreases row@.len() - k,
        {
            if x >= 0 && x <= i32::MAX as i64 && x as usize >= row[k].0 && (x as usize) < row[k].1 && same_text(row[k].2.as_str(), site) {
                assert(row@[k as int].0 <= x < row@[k as int].1);
                return true;
            }
            k = k + 1;
        }
        false
    }

    /// The orientation the row at this square imposes on a cell of this site.
    pub fn site_orient_at(&self, x: i64, y: i64, site: &str) -> (r: Option<String>)
        requires
            self.wf(),
        ensures
            r is Some <==> (0 <= y < self.row_count && offers(self.row_sites@[y as int]@, x as int, site@)),
            r matches Some(o) ==> o == self.row_orient@[y as int],
    {
        if self.site_valid_at(x, y, site) {
            Some(self.row_orient[y as usize].clone())
        } else {
            None
        }
    }

    /// The first of the first `n` sites of a row, of those over column `x`, with the least height.
    pub open spec fn shortest_upto(&self, x: int, row: int, heights: Seq<(String, i32)>, n: int) -> Option<int>
        decreases n,
    {
        if n <= 0 {
            None
        } else {
            let s = self.row_sites@[row]@;
            let best = self.shortest_upto(x, row, heights, n - 1);
            if s[n - 1].0 <= x < s[n - 1].1 && (best is None || height_of(heights, s[n - 1].2@) < height_of(heights, s[best->Some_0].2@)) {
                Some(n - 1)
            } else {
                best
            }
        }
    }

    /// The shortest site over a square.
    pub open spec fn shortest(&self, x: int, row: int, heights: Seq<(String, i32)>) -> Option<int> {
        self.shortest_upto(x, row, heights, self.row_sites@[row]@.len() as int)
    }

    /// The shortest site over a square and the orientation its row imposes, `None` where no site
    /// lies over it. The heights are those of a table of sites.
    pub fn shortest_site(&self, x: usize, row: usize, heights: &Vec<(String, i32)>) -> (r: Option<(String, String)>)
        requires
            self.wf(),
            row < self.row_count,
        ensures
            r is Some <==> self.shortest(x as int, row as int, heights@) is Some,
            r matches Some(p) ==> {
                let k = self.shortest(x as int, row as int, heights@)->Some_0;
                0 <= k < self.row_sites@[row as int]@.len() && p.0 == self.row_sites@[row as int]@[k].2 && p.1 == self.row_orient@[row as int]
            },
    {
        let sites = &self.row_sites[row];
        let mut best: Option<usize> = None;
        let mut least: i32 = 0;
        let mut k: usize = 0;
        while k < sites.len()
            invariant
                self.wf(),
                row < self.row_count,
                sites == self.row_sites@[row as int],
                k <= sites@.len(),
                best is Some <==> self.shortest_upto(x as int, row as int, heights@, k as int) is Some,
                best matches Some(b) ==> b < k && self.shortest_upto(x as int, row as int, heights@, k as int) == Some(b as int)
                    && least == height_of(heights@, sites@[b as int].2@),
            decreases sites@.len() - k,
        {
            if sites[k].0 <= x && x < sites[k].1 {
                let h: i32 = site_height(heights, sites[k].2.as_str());
                if best.is_none() || h < least {
                    best = Some(k);
                    least = h;
                }
            }
            k = k + 1;
        }
        match best {
            Some(b) => Some((sites[b].2.clone(), self.row_orient[row].clone())),
            None => None,
        }
    }

    /// The grid row whose band holds `y`, for a wide Y.
    fn band_at(&self, y: i64) -> (r: Option<usize>)
        requires
            self.wf(),
        ensures
            r is Some <==> self.band_of(y as int) is Some,
            r matches Some(i) ==> self.in_band(i as int, y as int) && self.band_of(y as int) == Some(i as int),
    {
        let mut i: usize = 0;
        while i < self.row_count
            invariant
                self.wf(),
                i <= self.row_count,
                forall|j: int| 0 <= j < i ==> !self.in_band(j, y as int),
            decreases self.row_count - i,
        {
            if self.row_y[i] as i64 <= y && y < self.row_y[i + 1] as i64 {
                assert(self.in_band(i as int, y as int));
                proof {
                    self.lemma_band_unique(i as int, y as int);
                }
                return Some(i);
            }
            i = i + 1;
        }
        None
    }

    /// The grid row index a Y sits in, if any.
    pub fn grid_y(&self, y: i32) -> (r: Option<usize>)
        requires
            self.wf(),
        ensures
            r is Some <==> self.band_of(y as int) is Some,
            r matches Some(i) ==> self.in_band(i as int, y as int) && self.band_of(y as int) == Some(i as int),
    {
        self.band_at(y as i64)
    }

    /// The bottoms of the rows.
    pub open spec fn row_bottoms(&self) -> Seq<i32> {
        self.row_y@.subrange(0, self.row_count as int)
    }

    /// The row whose bottom is nearest to a Y, the lower one of two; 0 for a grid without rows.
    pub fn grid_round_y(&self, y: i32) -> (r: usize)
        requires
            self.wf(),
        ensures
            r == nearest_ix(self.row_bottoms(), y as int),
            is_nearest(self.row_bottoms(), y as int, r as int),
            r < self.row_count || r == 0,
    {
        let ghost b = self.row_bottoms();
        let mut best: usize = 0;
        let mut k: usize = 1;
        while k < self.row_count
            invariant
                self.wf(),
                b == self.row_bottoms(),
                1 <= k,
                k <= self.row_count || k == 1,
                best < k,
                forall|j: int| 0 <= j < k && j < self.row_count ==> dist(b[best as int] as int, y as int) <= dist(#[trigger] b[j] as int, y as int),
                forall|j: int| 0 <= j < best ==> dist(b[best as int] as int, y as int) < dist(#[trigger] b[j] as int, y as int),
            decreases self.row_count - k,
        {
            let d0: i64 = crate::arith::distance(self.row_y[best] as i64, y as i64);
            let d1: i64 = crate::arith::distance(self.row_y[k] as i64, y as i64);
            assert(b[k as int] == self.row_y@[k as int] && b[best as int] == self.row_y@[best as int]);
            if d1 < d0 {
                best = k;
            }
            k = k + 1;
        }
        proof {
            assert(is_nearest(b, y as int, best as int));
            lemma_nearest_unique(b, y as int, best as int);
        }
        best
    }

    /// The row a Y falls in, snapping down; below the first row it is row 0. `None` only for a
    /// grid without rows.
    pub fn grid_snap_down_y(&self, y: i32) -> (r: Option<usize>)
        requires
            self.wf(),
        ensures
            r is Some <==> self.row_count > 0,
            r matches Some(i) ==> self.is_snap_down(i as int, y as int) && self.snap_down(y as int) == i,
    {
        if self.row_count == 0 {
            return None;
        }
        let mut i: usize = self.row_count - 1;
        while i > 0 && self.row_y[i] > y
            invariant
                self.wf(),
                i < self.row_count,
                i + 1 < self.row_count ==> y < self.row_y@[i + 1],
            decreases i,
        {
            i = i - 1;
        }
        proof {
            self.lemma_snap_unique(i as int, y as int);
        }
        Some(i)
    }

    /// The row past the last one that a cell whose top edge is `top` covers.
    fn end_row_at(&self, top: i64) -> (r: usize)
        requires
            self.wf(),
        ensures
            self.is_end_row(r as int, top as int),
            r == self.end_row(top as int),
    {
        let mut i: usize = 0;
        while i < self.row_count && (self.row_y[i] as i64) < top
            invariant
                self.wf(),
                i <= self.row_count,
                forall|j: int| 0 <= j < i ==> self.row_y@[j] < top,
            decreases self.row_count - i,
        {
            i = i + 1;
        }
        proof {
            self.lemma_end_unique(i as int, top as int);
        }
        i
    }

    /// The first row boundary at or above `y`, and the last boundary where there is none.
    pub fn grid_end_y_dbu(&self, y: i32) -> (r: usize)
        requires
            self.wf(),
        ensures
            self.is_end_row(r as int, y as int),
            r == self.end_row(y as int),
    {
        self.end_row_at(y as i64)
    }

    /// The row past the last one that a cell of `h` DBU starting at grid row `y` covers.
    pub fn grid_end_y(&self, y: i64, h: i32) -> (r: i64)
        requires
            self.wf(),
        ensures
            r == self.end_row(self.boundary_y(y as int) + h),
            0 <= r <= self.row_count,
    {
        let k: i64 = max64(y, 0);
        let y0: i64 = if k > self.row_count as i64 { 0 } else { self.row_y[k as usize] as i64 };
        self.end_row_at(y0 + h as i64) as i64
    }

    /// The grid squares a cell occupies: `(x_lo, y_lo, x_hi, y_hi)`, half open.
    pub fn covering(&self, x: i32, y: i32, w: i32, h: i32) -> (r: (i64, i64, i64, i64))
        requires
            self.wf(),
        ensures
            (r.0 as int, r.1 as int, r.2 as int, r.3 as int) == self.cover(x as int, y as int, w as int, h as int),
            self.row_count > 0 ==> 0 <= r.1 < r.3 <= self.row_count,
            -0x1_0000_0000 <= r.0 <= r.2 <= 0x2_0000_0000,
    {
        let sw: i64 = self.site_width as i64;
        let xlo: i64 = div_trunc(x as i64, sw);
        let cw: i64 = div_ceil(w as i64, sw);
        proof {
            let a = x as int;
            if a >= 0 {
                crate::arith::lemma_quot_bound(a, sw as int);
            } else {
                crate::arith::lemma_quot_bound(-a, sw as int);
            }
            assert(-0x8000_0000 <= (-w) as int / sw as int <= 0x8000_0000) by (nonlinear_arith)
                requires sw > 0, -0x8000_0000 <= w <= 0x7fff_ffff;
        }
        let xhi: i64 = xlo + max64(cw, 1);
        let ylo: usize = match self.grid_snap_down_y(y) {
            Some(v) => v,
            None => return (xlo, -1, xhi, -1),
        };
        let top: i64 = self.row_y[ylo] as i64 + h as i64;
        let end: i64 = self.end_row_at(top) as i64;
        let yhi: i64 = max64(end, ylo as i64 + 1);
        (xlo, ylo as i64, xhi, yhi)
    }

    /// The squares a box of corners `(x0, y0)` and `(x1, y1)` touches.
    pub open spec fn touch(&self, x0: int, y0: int, x1: int, y1: int) -> (int, int, int, int) {
        (
            x0 / self.site_width as int,
            if self.row_count == 0 { -1 } else { self.snap_down(y0) },
            ceil_quot(x1, self.site_width as int),
            if self.row_count == 0 { -1 } else { self.end_row(y1) },
        )
    }

    /// The grid squares a box touches: X down and up to a site, Y down to a row and up to a boundary.
    pub fn covering_rect(&self, x0: i32, y0: i32, x1: i32, y1: i32) -> (r: (i64, i64, i64, i64))
        requires
            self.wf(),
        ensures
            (r.0 as int, r.1 as int, r.2 as int, r.3 as int) == self.touch(x0 as int, y0 as int, x1 as int, y1 as int),
    {
        let sw: i64 = self.site_width as i64;
        let xlo: i64 = crate::arith::div_floor(x0 as i64, sw);
        let xhi: i64 = div_ceil(x1 as i64, sw);
        match self.grid_snap_down_y(y0) {
            Some(ylo) => (xlo, ylo as i64, xhi, self.grid_end_y_dbu(y1) as i64),
            None => (xlo, -1, xhi, -1),
        }
    }

    /// The height of every row, if they all have the same one.
    pub fn uniform_row_height(&self) -> (r: Option<i32>)
        requires
            self.wf(),
        ensures
            r is Some <==> self.row_height() is Some,
            r matches Some(h) ==> h > 0 && self.row_height() == Some(h as int),
    {
        if self.row_count == 0 {
            return None;
        }
        let first: i32 = self.row_y[1] - self.row_y[0];
        let mut i: usize = 1;
        while i < self.row_count
            invariant
                self.wf(),
                1 <= i <= self.row_count,
                first == self.row_y@[1] - self.row_y@[0],
                forall|j: int| 0 <= j < i ==> #[trigger] self.row_y@[j + 1] - self.row_y@[j] == first,
            decreases self.row_count - i,
        {
            let a: i64 = self.row_y[i] as i64;
            let b: i64 = self.row_y[i + 1] as i64;
            if b - a != first as i64 {
                assert(self.row_y@[i + 1] - self.row_y@[i as int] != first);
                return None;
            }
            i = i + 1;
        }
        Some(first)
    }

    /// A master's height in rows, from the master alone: the height divided upward by the row
    /// height where all rows share one, else the length of the site's row pattern, else one.
    pub fn grid_height(&self, master_height: i32, row_pattern_len: usize) -> (r: i32)
        requires
            self.wf(),
            row_pattern_len <= i32::MAX,
        ensures
            r == match self.row_height() {
                Some(rh) => imax(1, ceil_quot(master_height as int, rh)),
                None => if row_pattern_len > 0 { row_pattern_len as int } else { 1 },
            },
    {
        match self.uniform_row_height() {
            Some(rh) => {
                let n: i64 = div_ceil(master_height as i64, rh as i64);
                proof {
                    assert(-0x8000_0000 <= n <= 0x7fff_ffff) by (nonlinear_arith)
                        requires n == -((-master_height) as int / rh as int), rh > 0, -0x8000_0000 <= master_height <= 0x7fff_ffff;
                }
                max64(1, n) as i32
            },
            None => if row_pattern_len > 0 { row_pattern_len as i32 } else { 1 },
        }
    }

    /// How many grid rows a cell of height `h` starting at `y` spans.
    pub fn rows_spanned(&self, y: i32, h: i32) -> (r: usize)
        requires
            self.wf(),
            self.span(y as int, h as int) >= 0,
        ensures
            r == self.span(y as int, h as int),
            r <= self.row_count + 1,
    {
        match self.band_at(y as i64) {
            None => 1,
            Some(lo) => match self.band_at(y as i64 + h as i64 - 1) {
                None => 1,
                Some(hi) => if hi >= lo { hi - lo + 1 } else { 0 },
            },
        }
    }

    /// Where a cell's search starts: the wanted position clamped into the core, then rounded to
    /// the nearest site and to the nearest row, the lower of two equally near.
    pub fn legal_start(&self, x: i32, y: i32, w: i32, h: i32) -> (r: (i64, i64))
        requires
            self.wf(),
            self.row_site_count > 0,
        ensures
            ({
                let max_x = imax(self.row_site_count * self.site_width - w, 0);
                let cx = imin(imax(x as int, 0), max_x);
                r.0 == imin(round_quot(cx, self.site_width as int), self.row_site_count - 1)
            }),
            ({
                let max_y = imax(self.core.3 - self.core.1 - h, 0);
                let cy = imin(imax(y as int, 0), max_y);
                r.1 == nearest_ix(self.row_y@.subrange(0, imax(self.row_count as int, 1)), cy)
            }),
            0 <= r.0 < self.row_site_count,
            0 <= r.1 < imax(self.row_count as int, 1),
    {
        let sw: i64 = self.site_width as i64;
        proof {
            assert(self.row_site_count * self.site_width == (self.row_site_count as i64) * sw);
        }
        let max_x: i64 = max64(self.row_site_count as i64 * sw - w as i64, 0);
        let cx: i64 = min64(max64(x as i64, 0), max_x);
        let gx: i64 = div_round(cx, sw);
        let max_y: i64 = max64(self.core.3 as i64 - self.core.1 as i64 - h as i64, 0);
        let cy: i64 = min64(max64(y as i64, 0), max_y);
        let n: usize = if self.row_count > 1 { self.row_count } else { 1 };
        let rows = vstd::slice::slice_subrange(self.row_y.as_slice(), 0, n);
        let best: usize = nearest_row(rows, cy);
        proof {
            assert(gx >= 0) by {
                crate::arith::lemma_quot_bound((2 * cx + sw) as int, (2 * sw) as int);
            }
        }
        (min64(gx, self.row_site_count as i64 - 1), best as i64)
    }

    /// Whether a box of squares is all usable and free.
    pub open spec fn box_free(&self, x0: int, x1: int, y0: int, y1: int) -> bool {
        forall|gx: int, gy: int| #![trigger self.px(gx, gy)] x0 <= gx < x1 && y0 <= gy < y1 ==>
            self.inside(gx, gy) && self.px(gx, gy).is_valid && !self.px(gx, gy).occupied
    }

    /// Whether a cell of `cells_wide` sites and `h` DBU of this site may sit at `(x, y)`: every square that it
    /// would cover exists, is valid and free, and its first row offers its site there.
    pub open spec fn fits(&self, x: int, y: int, cells_wide: int, h: int, site: Seq<char>) -> bool {
        &&& 0 <= y < self.row_count
        &&& 0 <= x
        &&& x + cells_wide <= self.row_site_count
        &&& self.row_y@[y] + h <= self.row_y@[self.row_count as int]
        &&& self.box_free(x, x + cells_wide, y, self.end_row(self.row_y@[y] + h))
        &&& offers(self.row_sites@[y]@, x, site)
    }

    /// May a cell of `cells_wide` sites and `h` DBU sit at this square? Every square it would cover
    /// must exist, be valid and be unoccupied, and its first row must offer its site there.
    pub fn can_place(&self, x: i64, y: i64, cells_wide: i64, h: i32, site: &str) -> (r: bool)
        requires
            self.wf(),
            x + cells_wide <= i64::MAX,
            h >= 1,
        ensures
            r == self.fits(x as int, y as int, cells_wide as int, h as int, site@),
    {
        if y < 0 || y >= self.row_count as i64 || x < 0 {
            return false;
        }
        let top: i64 = self.row_y[y as usize] as i64 + h as i64;
        let x_end: i64 = x + cells_wide;
        if x_end > self.row_site_count as i64 || top > self.row_y[self.row_count] as i64 {
            return false;
        }
        let y_end: i64 = self.end_row_at(top) as i64;
        proof {
            assert(self.is_end_row(y_end as int, top as int));
            if y_end <= y {
                assert(self.row_y@[y_end as int] <= self.row_y@[y as int]);
            }
        }
        let mut gy: i64 = y;
        while gy < y_end
            invariant
                self.wf(),
                0 <= x,
                x_end == x + cells_wide,
                x_end <= self.row_site_count,
                0 <= y <= gy <= y_end <= self.row_count,
                y < self.row_count,
                y_end == self.end_row(self.row_y@[y as int] + h),
                self.box_free(x as int, x_end as int, y as int, gy as int),
            decreases y_end - gy,
        {
            let mut gx: i64 = x;
            while gx < x_end
                invariant
                    self.wf(),
                    0 <= x <= gx,
                    gx <= x_end || x_end < x,
                    x_end == x + cells_wide,
                    x_end <= self.row_site_count,
                    0 <= y <= gy < y_end <= self.row_count,
                    y_end == self.end_row(self.row_y@[y as int] + h),
                    self.box_free(x as int, gx as int, gy as int, gy + 1),
                decreases x_end - gx,
            {
                let p = &self.pixels[gy as usize][gx as usize];
                assert(*p == self.px(gx as int, gy as int));
                if !p.is_valid || p.occupied {
                    assert(!self.box_free(x as int, x_end as int, y as int, y_end as int));
                    return false;
                }
                gx = gx + 1;
            }
            gy = gy + 1;
        }
        self.site_valid_at(x, y, site)
    }
}

/// One change to a square.
#[derive(Debug, Clone, Copy)]
pub enum Stamp {
    /// A row covers the square.
    Validate,
    /// A hard blockage covers the square.
    Invalidate,
    /// A special wire blocks these routing levels.
    Block(u32),
    /// A cell's body covers the square; the first cell keeps it.
    Occupy(Option<u32>),
    /// A cell's padding claims the square; the last cell gets it.
    Reserve(u32),
    /// A group's region covers the square, or none does.
    Assign(Option<usize>),
}

/// What a change leaves of a square.
pub open spec fn stamped(p: Pixel, s: Stamp) -> Pixel {
    match s {
        Stamp::Validate => Pixel { is_valid: true, ..p },
        Stamp::Invalidate => Pixel { is_valid: false, ..p },
        Stamp::Block(m) => Pixel { blocked_layers: p.blocked_layers | m, ..p },
        Stamp::Occupy(c) => Pixel { occupied: true, cell: if p.cell is None { c } else { p.cell }, ..p },
        Stamp::Reserve(c) => Pixel { padding_reserved_by: Some(c), ..p },
        Stamp::Assign(g) => Pixel { group: g, ..p },
    }
}

fn stamp_pixel(p: Pixel, s: Stamp) -> (r: Pixel)
    ensures
        r == stamped(p, s),
{
    let mut q = p;
    match s {
        Stamp::Validate => { q.is_valid = true; },
        Stamp::Invalidate => { q.is_valid = false; },
        Stamp::Block(m) => { q.blocked_layers = q.blocked_layers | m; },
        Stamp::Occupy(c) => {
            q.occupied = true;
            if q.cell.is_none() {
                q.cell = c;
            }
        },
        Stamp::Reserve(c) => { q.padding_reserved_by = Some(c); },
        Stamp::Assign(g) => { q.group = g; },
    }
    q
}

/// Whether `(x, y)` lies in a half-open box `(x_lo, y_lo, x_hi, y_hi)`.
pub open spec fn in_box(b: (int, int, int, int), x: int, y: int) -> bool {
    b.0 <= x < b.2 && b.1 <= y < b.3
}

impl Grid {
    /// `self` is `o` with a change made to the squares of a box, and nothing else.
    pub open spec fn is_stamped(&self, o: Grid, b: (int, int, int, int), s: Stamp) -> bool {
        &&& self.same_frame(o)
        &&& forall|gx: int, gy: int| #![trigger self.px(gx, gy)] o.inside(gx, gy) ==>
            self.px(gx, gy) == if in_box(b, gx, gy) { stamped(o.px(gx, gy), s) } else { o.px(gx, gy) }
    }

    /// Change every square of a box, clipped to the grid.
    pub fn stamp_box(&mut self, x0: i64, y0: i64, x1: i64, y1: i64, s: Stamp)
        requires
            old(self).wf(),
        ensures
            final(self).wf(),
            final(self).is_stamped(*old(self), (x0 as int, y0 as int, x1 as int, y1 as int), s),
    {
        let ghost g0 = *self;
        let cx0: i64 = max64(x0, 0);
        let cy0: i64 = max64(y0, 0);
        let cx1: i64 = min64(x1, self.row_site_count as i64);
        let cy1: i64 = min64(y1, self.row_count as i64);
        let mut gy: i64 = cy0;
        while gy < cy1
            invariant
                self.wf(),
                self.same_frame(g0),
                g0.wf(),
                cx0 == imax(x0 as int, 0),
                cy0 == imax(y0 as int, 0),
                cx1 == imin(x1 as int, self.row_site_count as int),
                cy1 == imin(y1 as int, self.row_count as int),
                cy0 <= gy,
                gy <= cy1 || gy == cy0,
                forall|a: int, b: int| #![trigger self.px(a, b)] g0.inside(a, b) ==>
                    self.px(a, b) == if cx0 <= a < cx1 && cy0 <= b < gy { stamped(g0.px(a, b), s) } else { g0.px(a, b) },
            decreases cy1 - gy,
        {
            let mut gx: i64 = cx0;
            while gx < cx1
                invariant
                    self.wf(),
                    self.same_frame(g0),
                    g0.wf(),
                    cx0 == imax(x0 as int, 0),
                    cy0 == imax(y0 as int, 0),
                    cx1 == imin(x1 as int, self.row_site_count as int),
                    cy1 == imin(y1 as int, self.row_count as int),
                    cy0 <= gy < cy1,
                    cx0 <= gx,
                    gx <= cx1 || gx == cx0,
                    forall|a: int, b: int| #![trigger self.px(a, b)] g0.inside(a, b) ==>
                        self.px(a, b) == if cx0 <= a < cx1 && cy0 <= b < gy || b == gy && cx0 <= a < gx { stamped(g0.px(a, b), s) } else { g0.px(a, b) },
                decreases cx1 - gx,
            {
                let ghost before = *self;
                let p = self.pixels[gy as usize][gx as usize];
                assert(p == before.px(gx as int, gy as int));
                self.pixels[gy as usize][gx as usize] = stamp_pixel(p, s);
                assert(self.pixels@[gy as int]@ == before.pixels@[gy as int]@.update(gx as int, stamped(p, s)));
                assert(forall|b: int| 0 <= b < self.row_count && b != gy ==> self.pixels@[b] == before.pixels@[b]);
                assert forall|a: int, b: int| #![trigger self.px(a, b)] g0.inside(a, b) implies
                    self.px(a, b) == if cx0 <= a < cx1 && cy0 <= b < gy || b == gy && cx0 <= a < gx + 1 { stamped(g0.px(a, b), s) } else { g0.px(a, b) } by {
                    if b != gy {
                        assert(self.px(a, b) == before.px(a, b));
                    } else if a != gx {
                        assert(self.px(a, b) == before.px(a, b));
                    } else {
                        assert(before.px(a, b) == g0.px(a, b));
                    }
                }
                gx = gx + 1;
            }
            gy = gy + 1;
        }
    }

    /// Mark the squares a cell occupies, the occupant unrecorded.
    pub fn paint(&mut self, x: i32, y: i32, w: i32, h: i32, _movable: bool)
        requires
            old(self).wf(),
        ensures
            final(self).wf(),
            final(self).is_stamped(*old(self), old(self).cover(x as int, y as int, w as int, h as int), Stamp::Occupy(None)),
    {
        self.paint_cell(x, y, w, h, None)
    }

    /// Mark the squares a cell occupies. The first writer keeps a square.
    pub fn paint_cell(&mut self, x: i32, y: i32, w: i32, h: i32, occupant: Option<u32>)
        requires
            old(self).wf(),
        ensures
            final(self).wf(),
            final(self).is_stamped(*old(self), old(self).cover(x as int, y as int, w as int, h as int), Stamp::Occupy(occupant)),
    {
        let (xlo, ylo, xhi, yhi) = self.covering(x, y, w, h);
        self.stamp_box(xlo, ylo, xhi, yhi, Stamp::Occupy(occupant));
    }

    /// `self` is `o` with the padding of a cell reserved on either side of it.
    pub open spec fn is_padded(&self, o: Grid, x: int, y: int, cells_wide: int, h: int, left_pad: int, right_pad: int, occupant: u32) -> bool {
        &&& self.same_frame(o)
        &&& forall|gx: int, gy: int| #![trigger self.px(gx, gy)] o.inside(gx, gy) ==>
            self.px(gx, gy) == if y <= gy < o.end_row(o.boundary_y(y) + h)
                && (x - left_pad <= gx < x || x + cells_wide <= gx < x + cells_wide + right_pad) {
                stamped(o.px(gx, gy), Stamp::Reserve(occupant))
            } else {
                o.px(gx, gy)
            }
    }

    /// Reserve the sites a cell's padding claims on either side of it: the two pad spans only,
    /// never the body. The last writer gets a square.
    pub fn paint_cell_padding(&mut self, x: i64, y: i64, cells_wide: i64, h: i32,
                              left_pad: i64, right_pad: i64, occupant: u32)
        requires
            old(self).wf(),
            i64::MIN <= x - left_pad <= i64::MAX,
            i64::MIN <= x + cells_wide <= i64::MAX,
            i64::MIN <= x + cells_wide + right_pad <= i64::MAX,
        ensures
            final(self).wf(),
            final(self).is_padded(*old(self), x as int, y as int, cells_wide as int, h as int, left_pad as int, right_pad as int, occupant),
    {
        let y_end: i64 = self.grid_end_y(y, h);
        let x_end: i64 = x + cells_wide;
        let ghost g0 = *self;
        self.stamp_box(x - left_pad, y, x, y_end, Stamp::Reserve(occupant));
        let ghost g1 = *self;
        self.stamp_box(x_end, y, x_end + right_pad, y_end, Stamp::Reserve(occupant));
        assert forall|gx: int, gy: int| #![trigger self.px(gx, gy)] g0.inside(gx, gy) implies
            self.px(gx, gy) == if y <= gy < y_end
                && (x - left_pad <= gx < x || x + cells_wide <= gx < x + cells_wide + right_pad) {
                stamped(g0.px(gx, gy), Stamp::Reserve(occupant))
            } else {
                g0.px(gx, gy)
            } by {
            assert(g1.inside(gx, gy));
            let a = g1.px(gx, gy);
        }
    }
}

/// A cell's padding never reserves a square of its own body.
pub proof fn law_padding_spares_the_body(before: Grid, after: Grid, x: int, y: int, cells_wide: int, h: int, left_pad: int, right_pad: int, occupant: u32, gx: int, gy: int)
    requires
        after.is_padded(before, x, y, cells_wide, h, left_pad, right_pad, occupant),
        before.inside(gx, gy),
        x <= gx < x + cells_wide,
    ensures
        after.px(gx, gy) == before.px(gx, gy),
{
    let p = after.px(gx, gy);
}

/// The first cell painted keeps its squares; the last padding painted gets its squares.
pub proof fn law_first_body_last_padding(p: Pixel, a: u32, b: u32)
    requires
        p.cell is None,
    ensures
        stamped(stamped(p, Stamp::Occupy(Some(a))), Stamp::Occupy(Some(b))).cell == Some(a),
        stamped(stamped(p, Stamp::Reserve(a)), Stamp::Reserve(b)).padding_reserved_by == Some(b),
{
}

/// A row of the design.
#[derive(Debug)]
pub struct RowInfo {
    /// The lower left corner, absolute.
    pub x: i32,
    pub y: i32,
    pub site: String,
    pub site_class: String,
    pub site_width: i32,
    pub site_height: i32,
    pub site_count: i32,
    pub orient: String,
}

/// What of a design the grid is made of. Coordinates are absolute.
#[derive(Debug)]
pub struct GridInput {
    pub core: (i32, i32, i32, i32),
    pub rows: Vec<RowInfo>,
    /// Blockage boxes, each with whether it is soft.
    pub blockages: Vec<((i32, i32, i32, i32), bool)>,
    /// Boxes of the special wires that block a routing level, with the level.
    pub straps: Vec<(u32, (i32, i32, i32, i32))>,
}

/// Why no grid could be made.
#[derive(Debug, PartialEq, Eq)]
pub enum GridError {
    /// Two rows have sites of different widths.
    SiteWidths { first: i32, other: i32, site: String },
    NoRows,
    ZeroSiteWidth,
}

impl GridError {
    /// The message for a report.
    pub open spec fn text(&self) -> Seq<char> {
        match *self {
            GridError::SiteWidths { first, other, site } => "site widths are not equal: "@ + crate::text::signed_decimal(first as int)
                + " != "@ + crate::text::signed_decimal(other as int) + " ("@ + site@ + ")"@,
            GridError::NoRows => "no rows found"@,
            GridError::ZeroSiteWidth => "site width is zero"@,
        }
    }

    /// The message for a report.
    pub fn message(&self) -> (r: String)
        ensures
            r@ == self.text(),
    {
        match self {
            GridError::SiteWidths { first, other, site } => {
                let mut s = "site widths are not equal: ".to_owned();
                crate::text::append_signed(&mut s, *first as i128);
                s.append(" != ");
                crate::text::append_signed(&mut s, *other as i128);
                s.append(" (");
                s.append(site.as_str());
                s.append(")");
                s
            },
            GridError::NoRows => "no rows found".to_owned(),
            GridError::ZeroSiteWidth => "site width is zero".to_owned(),
        }
    }
}

/// A row that is kept: pad rows are not placement rows.
pub open spec fn is_kept(r: RowInfo) -> bool {
    r.site_class@ != "PAD"@
}

impl GridInput {
    /// The site width after the first `n` rows: that of the first kept row whose width is not 0.
    pub open spec fn width_upto(&self, n: int) -> int
        decreases n,
    {
        if n <= 0 {
            0
        } else {
            let w = self.width_upto(n - 1);
            if w != 0 || !is_kept(self.rows@[n - 1]) { w } else { self.rows@[n - 1].site_width as int }
        }
    }

    /// Row `k` has another site width than the rows before it.
    pub open spec fn mismatch(&self, k: int) -> bool {
        &&& 0 <= k < self.rows@.len()
        &&& is_kept(self.rows@[k])
        &&& self.width_upto(k) != 0
        &&& self.rows@[k].site_width != self.width_upto(k)
    }

    /// Row `k`'s lower edge, relative to the core.
    pub open spec fn rel_y(&self, k: int) -> int {
        self.rows@[k].y - self.core.1
    }

    /// Row `k`'s upper edge, relative to the core.
    pub open spec fn rel_top(&self, k: int) -> int {
        self.rows@[k].y - self.core.1 + self.rows@[k].site_height
    }

    /// The first column of row `k`.
    pub open spec fn col_lo(&self, k: int, sw: int) -> int {
        imax(trunc_quot(self.rows@[k].x - self.core.0, sw), 0)
    }

    /// One past the last column of row `k`.
    pub open spec fn col_hi(&self, k: int, sw: int, cols: int) -> int {
        imin(self.col_lo(k, sw) + imax(self.rows@[k].site_count as int, 0), cols)
    }

    /// Whether one of the first `n` rows covers column `gx` of the band that starts at `yb`.
    pub open spec fn row_covers(&self, n: int, sw: int, cols: int, gx: int, yb: int) -> bool {
        exists|k: int| 0 <= k < n && is_kept(#[trigger] self.rows@[k]) && self.rel_y(k) == yb
            && self.col_lo(k, sw) <= gx < self.col_hi(k, sw, cols)
    }

    /// The site intervals that the first `n` rows give the band that starts at `yb`.
    pub open spec fn band_sites(&self, n: int, sw: int, cols: int, yb: int) -> Seq<(usize, usize, String)>
        decreases n,
    {
        if n <= 0 {
            Seq::empty()
        } else {
            let s = self.band_sites(n - 1, sw, cols, yb);
            if is_kept(self.rows@[n - 1]) && self.rel_y(n - 1) == yb {
                s.push((self.col_lo(n - 1, sw) as usize, self.col_hi(n - 1, sw, cols) as usize, self.rows@[n - 1].site))
            } else {
                s
            }
        }
    }

    /// The orientation that the first `n` rows give the band that starts at `yb`.
    pub open spec fn band_orient(&self, n: int, yb: int) -> Seq<char>
        decreases n,
    {
        if n <= 0 {
            "R0"@
        } else if is_kept(self.rows@[n - 1]) && self.rel_y(n - 1) == yb {
            self.rows@[n - 1].orient@
        } else {
            self.band_orient(n - 1, yb)
        }
    }

    /// Whether one of the first `n` rows has `y` as an edge.
    pub open spec fn is_edge(&self, n: int, y: int) -> bool {
        exists|k: int| 0 <= k < n && is_kept(#[trigger] self.rows@[k]) && (self.rel_y(k) == y || self.rel_top(k) == y)
    }

    /// Whether an absolute box covers column `gx` of the band `[ylo, yhi)`.
    pub open spec fn box_covers(&self, b: (i32, i32, i32, i32), sw: int, gx: int, ylo: int, yhi: int) -> bool {
        &&& trunc_quot(b.0 - self.core.0, sw) <= gx < trunc_quot(b.2 - self.core.0 + sw - 1, sw)
        &&& ylo < b.3 - self.core.1
        &&& yhi > b.1 - self.core.1
    }

    /// Whether one of the first `n` blockages takes a square away.
    pub open spec fn blocked_upto(&self, n: int, sw: int, gx: int, ylo: int, yhi: int) -> bool {
        exists|j: int| 0 <= j < n && !(#[trigger] self.blockages@[j]).1 && self.box_covers(self.blockages@[j].0, sw, gx, ylo, yhi)
    }

    /// The routing levels that the first `n` straps block in a square.
    pub open spec fn levels_upto(&self, n: int, sw: int, gx: int, ylo: int, yhi: int) -> u32
        decreases n,
    {
        if n <= 0 {
            0u32
        } else {
            let m = self.levels_upto(n - 1, sw, gx, ylo, yhi);
            if self.box_covers(self.straps@[n - 1].1, sw, gx, ylo, yhi) {
                m | (1u32 << self.straps@[n - 1].0)
            } else {
                m
            }
        }
    }

    /// The design's extent fits the coordinate type.
    pub open spec fn in_range(&self) -> bool {
        &&& self.core.2 - self.core.0 <= i32::MAX
        &&& self.rows@.len() < 0x4000_0000
        &&& 2 * self.rows@.len() * imax(self.core.2 - self.core.0, 0) <= usize::MAX
        &&& forall|k: int| 0 <= k < self.rows@.len() ==> -0x4000_0000 <= #[trigger] self.rel_y(k) < 0x4000_0000
        &&& forall|k: int| 0 <= k < self.rows@.len() ==> -0x4000_0000 <= #[trigger] self.rel_top(k) < 0x4000_0000
        &&& forall|k: int| 0 <= k < self.straps@.len() ==> (#[trigger] self.straps@[k]).0 < 32
    }

    /// Whether `e` is why no grid can be made of this design.
    pub open spec fn refused(&self, e: GridError) -> bool {
        match e {
            GridError::SiteWidths { first, other, site } => exists|k: int| {
                &&& #[trigger] self.mismatch(k)
                &&& forall|j: int| 0 <= j < k ==> !self.mismatch(j)
                &&& first == self.width_upto(k)
                &&& other == self.rows@[k].site_width
                &&& site == self.rows@[k].site
            },
            GridError::NoRows => {
                &&& forall|k: int| !self.mismatch(k)
                &&& forall|k: int| 0 <= k < self.rows@.len() ==> !is_kept(#[trigger] self.rows@[k])
            },
            GridError::ZeroSiteWidth => {
                &&& forall|k: int| !self.mismatch(k)
                &&& exists|k: int| 0 <= k < self.rows@.len() && is_kept(#[trigger] self.rows@[k])
                &&& self.width_upto(self.rows@.len() as int) <= 0
            },
        }
    }

    /// Whether a grid can be made of this design: it has placement rows, of one positive site width.
    pub open spec fn makeable(&self) -> bool {
        &&& forall|k: int| !self.mismatch(k)
        &&& exists|k: int| 0 <= k < self.rows@.len() && is_kept(#[trigger] self.rows@[k])
        &&& self.width_upto(self.rows@.len() as int) > 0
    }

    /// What a grid made of this design holds.
    pub open spec fn makes(&self, g: Grid) -> bool {
        let n = self.rows@.len() as int;
        let sw = self.width_upto(n);
        let cols = imax(trunc_quot(self.core.2 - self.core.0, sw), 0);
        &&& g.wf()
        &&& g.core == self.core
        &&& g.site_width == sw
        &&& g.row_site_count == cols
        &&& forall|y: i32| #[trigger] g.row_y@.contains(y) <==> self.is_edge(n, y as int)
        &&& forall|gy: int| 0 <= gy < g.row_count ==> (#[trigger] g.row_sites@[gy])@ == self.band_sites(n, sw, cols, g.row_y@[gy] as int)
        &&& forall|gy: int| 0 <= gy < g.row_count ==> (#[trigger] g.row_orient@[gy])@ == self.band_orient(n, g.row_y@[gy] as int)
        &&& g.blocked_layers_populated == (self.straps@.len() > 0)
        &&& forall|gx: int, gy: int| #![trigger g.px(gx, gy)] g.inside(gx, gy) ==> g.px(gx, gy) == (Pixel {
            is_valid: self.row_covers(n, sw, cols, gx, g.row_y@[gy] as int)
                && !self.blocked_upto(self.blockages@.len() as int, sw, gx, g.row_y@[gy] as int, g.row_y@[gy + 1] as int),
            blocked_layers: self.levels_upto(self.straps@.len() as int, sw, gx, g.row_y@[gy] as int, g.row_y@[gy + 1] as int),
            ..empty_pixel()
        })
    }
}

/// Put `y` in its place in an increasing list that may hold it already.
pub(crate) fn insert_boundary(v: &mut Vec<i32>, y: i32)
    requires
        increasing(old(v)@),
        old(v)@.len() < 0x7fff_ffff,
    ensures
        increasing(final(v)@),
        old(v)@.len() <= final(v)@.len() <= old(v)@.len() + 1,
        forall|z: i32| #[trigger] final(v)@.contains(z) <==> old(v)@.contains(z) || z == y,
{
    let ghost v0 = v@;
    let mut i: usize = 0;
    while i < v.len() && v[i] < y
        invariant
            i <= v@.len(),
            forall|j: int| 0 <= j < i ==> v@[j] < y,
        decreases v@.len() - i,
    {
        i = i + 1;
    }
    if i < v.len() && v[i] == y {
        assert(v@[i as int] == y);
        return;
    }
    v.insert(i, y);
    assert(v@ =~= v0.subrange(0, i as int).push(y) + v0.subrange(i as int, v0.len() as int));
    assert(v@[i as int] == y);
    assert forall|z: i32| #[trigger] v@.contains(z) <==> v0.contains(z) || z == y by {
        if v0.contains(z) {
            let k = choose|k: int| 0 <= k < v0.len() && v0[k] == z;
            if k < i { assert(v@[k] == z); } else { assert(v@[k + 1] == z); }
        }
        if v@.contains(z) {
            let k = choose|k: int| 0 <= k < v@.len() && v@[k] == z;
            if k < i { assert(v0[k] == z); } else if k > i { assert(v0[k - 1] == z); }
        }
    }
}

/// Where `y` stands in an increasing list that holds it.
fn boundary_index(v: &Vec<i32>, y: i32) -> (r: usize)
    requires
        v@.contains(y),
    ensures
        r < v@.len(),
        v@[r as int] == y,
{
    let mut i: usize = 0;
    while i < v.len()
        invariant
            i <= v@.len(),
            forall|j: int| 0 <= j < i ==> v@[j] != y,
            v@.contains(y),
        decreases v@.len() - i,
    {
        if v[i] == y {
            return i;
        }
        i = i + 1;
    }
    proof {
        let k = choose|k: int| 0 <= k < v@.len() && v@[k] == y;
        assert(v@[k] != y);
    }
    0
}

/// Scan the rows: the site width, the rows' count and the boundaries.
fn scan_rows(d: &GridInput) -> (r: Result<(i32, Vec<i32>), GridError>)
    requires
        d.in_range(),
    ensures
        match r {
            Err(e) => d.refused(e),
            Ok((sw, ys)) => {
                &&& forall|k: int| !d.mismatch(k)
                &&& exists|k: int| 0 <= k < d.rows@.len() && is_kept(#[trigger] d.rows@[k])
                &&& sw == d.width_upto(d.rows@.len() as int)
                &&& sw > 0
                &&& increasing(ys@)
                &&& 1 <= ys@.len() <= 2 * d.rows@.len()
                &&& forall|y: i32| #[trigger] ys@.contains(y) <==> d.is_edge(d.rows@.len() as int, y as int)
            },
        },
{
    let mut sw: i32 = 0;
    let mut ys: Vec<i32> = Vec::new();
    let mut any: bool = false;
    let mut n: usize = 0;
    while n < d.rows.len()
        invariant
            d.in_range(),
            n <= d.rows@.len(),
            sw == d.width_upto(n as int),
            forall|k: int| 0 <= k < n ==> !d.mismatch(k),
            any == exists|k: int| 0 <= k < n && is_kept(#[trigger] d.rows@[k]),
            increasing(ys@),
            ys@.len() <= 2 * n,
            any ==> ys@.len() >= 1,
            forall|y: i32| #[trigger] ys@.contains(y) <==> d.is_edge(n as int, y as int),
        decreases d.rows@.len() - n,
    {
        let row = &d.rows[n];
        let keep = !same_text(row.site_class.as_str(), "PAD");
        assert(keep == is_kept(d.rows@[n as int]));
        if keep {
            if sw == 0 {
                sw = row.site_width;
            } else if row.site_width != sw {
                assert(d.mismatch(n as int));
                return Err(GridError::SiteWidths { first: sw, other: row.site_width, site: row.site.clone() });
            }
            assert(-0x4000_0000 <= d.rel_y(n as int) < 0x4000_0000);
            assert(-0x4000_0000 <= d.rel_top(n as int) < 0x4000_0000);
            let lo: i32 = (row.y as i64 - d.core.1 as i64) as i32;
            let hi: i32 = (row.y as i64 - d.core.1 as i64 + row.site_height as i64) as i32;
            let ghost ys0 = ys@;
            insert_boundary(&mut ys, lo);
            insert_boundary(&mut ys, hi);
            assert(ys@.contains(lo));
            any = true;
            assert(is_kept(d.rows@[n as int]));
            assert forall|y: i32| #[trigger] ys@.contains(y) <==> d.is_edge(n + 1, y as int) by {
                assert(ys0.contains(y) <==> d.is_edge(n as int, y as int));
                if d.is_edge(n + 1, y as int) && !d.is_edge(n as int, y as int) {
                    let k = choose|k: int| 0 <= k < n + 1 && is_kept(#[trigger] d.rows@[k]) && (d.rel_y(k) == y || d.rel_top(k) == y);
                    assert(k == n);
                }
                if y == lo || y == hi {
                    assert(d.rel_y(n as int) == lo && d.rel_top(n as int) == hi);
                    assert(is_kept(d.rows@[n as int]));
                    assert(d.is_edge(n + 1, y as int));
                }
            }
        } else {
            assert forall|y: i32| #[trigger] ys@.contains(y) <==> d.is_edge(n + 1, y as int) by {
                assert(ys@.contains(y) <==> d.is_edge(n as int, y as int));
                if d.is_edge(n + 1, y as int) {
                    let k = choose|k: int| 0 <= k < n + 1 && is_kept(#[trigger] d.rows@[k]) && (d.rel_y(k) == y || d.rel_top(k) == y);
                    assert(k < n);
                    assert(d.is_edge(n as int, y as int));
                }
            }
        }
        assert(!d.mismatch(n as int));
        n = n + 1;
    }
    assert(forall|k: int| !d.mismatch(k));
    if !any {
        return Err(GridError::NoRows);
    }
    if sw <= 0 {
        return Err(GridError::ZeroSiteWidth);
    }
    Ok((sw, ys))
}

/// The text `"R0"` once per row.
fn r0_rows(n: usize) -> (r: Vec<String>)
    ensures
        r@.len() == n,
        forall|i: int| 0 <= i < n ==> (#[trigger] r@[i])@ == "R0"@,
{
    let mut out: Vec<String> = Vec::new();
    while out.len() < n
        invariant
            out@.len() <= n,
            forall|i: int| 0 <= i < out@.len() ==> (#[trigger] out@[i])@ == "R0"@,
        decreases n - out@.len(),
    {
        out.push("R0".to_owned());
    }
    out
}

/// One empty list per row.
fn empty_rows<T>(n: usize) -> (r: Vec<Vec<T>>)
    ensures
        r@.len() == n,
        forall|i: int| 0 <= i < n ==> (#[trigger] r@[i])@ == Seq::<T>::empty(),
{
    let mut out: Vec<Vec<T>> = Vec::new();
    while out.len() < n
        invariant
            out@.len() <= n,
            forall|i: int| 0 <= i < out@.len() ==> (#[trigger] out@[i])@ == Seq::<T>::empty(),
        decreases n - out@.len(),
    {
        let e: Vec<T> = Vec::new();
        assert(e@ =~= Seq::<T>::empty());
        out.push(e);
    }
    out
}

/// A grid of empty squares.
fn empty_pixels(rows: usize, cols: usize) -> (r: Vec<Vec<Pixel>>)
    ensures
        r@.len() == rows,
        forall|i: int| 0 <= i < rows ==> (#[trigger] r@[i])@.len() == cols,
        forall|i: int, j: int| 0 <= i < rows && 0 <= j < cols ==> #[trigger] r@[i]@[j] == empty_pixel(),
{
    let mut out: Vec<Vec<Pixel>> = Vec::new();
    while out.len() < rows
        invariant
            out@.len() <= rows,
            forall|i: int| 0 <= i < out@.len() ==> (#[trigger] out@[i])@.len() == cols,
            forall|i: int, j: int| 0 <= i < out@.len() && 0 <= j < cols ==> #[trigger] out@[i]@[j] == empty_pixel(),
        decreases rows - out@.len(),
    {
        let mut row: Vec<Pixel> = Vec::new();
        while row.len() < cols
            invariant
                row@.len() <= cols,
                forall|j: int| 0 <= j < row@.len() ==> #[trigger] row@[j] == empty_pixel(),
            decreases cols - row@.len(),
        {
            row.push(Pixel::default());
        }
        out.push(row);
    }
    out
}

impl Grid {
    /// Mark the squares of the rows, and note each band's sites and orientation.
    fn mark_rows(&mut self, d: &GridInput)
        requires
            old(self).wf(),
            d.in_range(),
            old(self).core == d.core,
            old(self).site_width == d.width_upto(d.rows@.len() as int),
            old(self).row_site_count == imax(trunc_quot(d.core.2 - d.core.0, old(self).site_width as int), 0),
            forall|y: i32| #[trigger] old(self).row_y@.contains(y) <==> d.is_edge(d.rows@.len() as int, y as int),
            forall|gy: int| 0 <= gy < old(self).row_count ==> (#[trigger] old(self).row_sites@[gy])@ == Seq::<(usize, usize, String)>::empty(),
            forall|gy: int| 0 <= gy < old(self).row_count ==> (#[trigger] old(self).row_orient@[gy])@ == "R0"@,
            forall|gx: int, gy: int| #![trigger old(self).px(gx, gy)] old(self).inside(gx, gy) ==> old(self).px(gx, gy) == empty_pixel(),
        ensures
            final(self).wf(),
            final(self).core == old(self).core,
            final(self).site_width == old(self).site_width,
            final(self).row_count == old(self).row_count,
            final(self).row_site_count == old(self).row_site_count,
            final(self).row_y == old(self).row_y,
            final(self).blocked_layers_populated == old(self).blocked_layers_populated,
            ({
                let g = *final(self);
                let n = d.rows@.len() as int;
                let sw = g.site_width as int;
                let cols = g.row_site_count as int;
                &&& forall|gy: int| 0 <= gy < g.row_count ==> (#[trigger] g.row_sites@[gy])@ == d.band_sites(n, sw, cols, g.row_y@[gy] as int)
                &&& forall|gy: int| 0 <= gy < g.row_count ==> (#[trigger] g.row_orient@[gy])@ == d.band_orient(n, g.row_y@[gy] as int)
                &&& forall|gx: int, gy: int| #![trigger g.px(gx, gy)] g.inside(gx, gy) ==> g.px(gx, gy) == (Pixel {
                    is_valid: d.row_covers(n, sw, cols, gx, g.row_y@[gy] as int),
                    ..empty_pixel()
                })
            }),
    {
        let ghost g0 = *self;
        let ghost sw = self.site_width as int;
        let ghost cols = self.row_site_count as int;
        let mut n: usize = 0;
        assert forall|gx: int, gy: int| #![trigger self.px(gx, gy)] self.inside(gx, gy) implies self.px(gx, gy) == (Pixel {
                    is_valid: d.row_covers(0, sw, cols, gx, self.row_y@[gy] as int),
                    ..empty_pixel()
                }) by {
            assert(!d.row_covers(0, sw, cols, gx, self.row_y@[gy] as int));
        }
        while n < d.rows.len()
            invariant
                self.wf(),
                d.in_range(),
                n <= d.rows@.len(),
                g0.core == d.core,
                sw == g0.site_width,
                cols == g0.row_site_count,
                forall|y: i32| #[trigger] self.row_y@.contains(y) <==> d.is_edge(d.rows@.len() as int, y as int),
                self.core == g0.core,
                self.site_width == g0.site_width,
                self.row_count == g0.row_count,
                self.row_site_count == g0.row_site_count,
                self.row_y == g0.row_y,
                self.blocked_layers_populated == g0.blocked_layers_populated,
                forall|gy: int| 0 <= gy < self.row_count ==> (#[trigger] self.row_sites@[gy])@ == d.band_sites(n as int, sw, cols, self.row_y@[gy] as int),
                forall|gy: int| 0 <= gy < self.row_count ==> (#[trigger] self.row_orient@[gy])@ == d.band_orient(n as int, self.row_y@[gy] as int),
                forall|gx: int, gy: int| #![trigger self.px(gx, gy)] self.inside(gx, gy) ==> self.px(gx, gy) == (Pixel {
                    is_valid: d.row_covers(n as int, sw, cols, gx, self.row_y@[gy] as int),
                    ..empty_pixel()
                }),
            decreases d.rows@.len() - n,
        {
            let row = &d.rows[n];
            let ghost g1 = *self;
            if same_text(row.site_class.as_str(), "PAD") {
                assert(!is_kept(d.rows@[n as int]));
                assert forall|gx: int, gy: int| #![trigger self.px(gx, gy)] self.inside(gx, gy) implies self.px(gx, gy) == (Pixel {
                    is_valid: d.row_covers(n + 1, sw, cols, gx, self.row_y@[gy] as int),
                    ..empty_pixel()
                }) by {
                    assert(d.row_covers(n + 1, sw, cols, gx, self.row_y@[gy] as int) == d.row_covers(n as int, sw, cols, gx, self.row_y@[gy] as int));
                }
                n = n + 1;
                continue;
            }
            assert(is_kept(d.rows@[n as int]));
            assert(-0x4000_0000 <= d.rel_y(n as int) < 0x4000_0000);
            let yb: i32 = (row.y as i64 - d.core.1 as i64) as i32;
            assert(d.is_edge(d.rows@.len() as int, yb as int));
            let gy: usize = boundary_index(&self.row_y, yb);
            let lo: i64 = max64(div_trunc(row.x as i64 - self.core.0 as i64, self.site_width as i64), 0);
            proof {
                let a = row.x - self.core.0;
                if a >= 0 {
                    crate::arith::lemma_quot_bound(a, sw);
                }
            }
            assert(lo == d.col_lo(n as int, sw));
            let hi: i64 = min64(lo + max64(row.site_count as i64, 0), self.row_site_count as i64);
            assert(hi == d.col_hi(n as int, sw, cols));
            if gy < self.row_count {
                self.stamp_box(lo, gy as i64, hi, gy as i64 + 1, Stamp::Validate);
                let ghost g2 = *self;
                assert(g2.row_sites == g1.row_sites);
                proof {
                    assert(0 <= lo <= usize::MAX && 0 <= hi <= usize::MAX);
                }
                self.row_sites[gy].push((lo as usize, hi as usize, row.site.clone()));
                self.row_orient[gy] = row.orient.clone();
                assert forall|i: int, k: int| 0 <= i < self.row_count && 0 <= k < self.row_sites@[i]@.len() implies
                    (#[trigger] self.row_sites@[i]@[k]).1 <= self.row_site_count by {
                    if i != gy {
                        assert(self.row_sites@[i] == g1.row_sites@[i]);
                        assert(g1.row_sites@[i]@[k].1 <= g1.row_site_count);
                    } else if k < g1.row_sites@[i]@.len() {
                        assert(self.row_sites@[i]@[k] == g1.row_sites@[i]@[k]);
                        assert(g1.row_sites@[i]@[k].1 <= g1.row_site_count);
                    }
                }
                assert forall|i: int| 0 <= i < self.row_count && i != gy implies self.row_y@[i] != yb by {
                    if i < gy { assert(self.row_y@[i] < self.row_y@[gy as int]); } else { assert(self.row_y@[gy as int] < self.row_y@[i]); }
                }
                assert forall|i: int| 0 <= i < self.row_count implies (#[trigger] self.row_sites@[i])@ == d.band_sites(n + 1, sw, cols, self.row_y@[i] as int) by {
                    assert(g1.row_sites@[i]@ == d.band_sites(n as int, sw, cols, self.row_y@[i] as int));
                    if i == gy {
                        assert(d.rel_y(n as int) == self.row_y@[i]);
                    } else {
                        assert(d.rel_y(n as int) != self.row_y@[i]);
                        assert(self.row_sites@[i] == g1.row_sites@[i]);
                    }
                }
                assert forall|i: int| 0 <= i < self.row_count implies (#[trigger] self.row_orient@[i])@ == d.band_orient(n + 1, self.row_y@[i] as int) by {
                    assert(g1.row_orient@[i]@ == d.band_orient(n as int, self.row_y@[i] as int));
                }
                assert forall|a: int, b: int| #![trigger self.px(a, b)] self.inside(a, b) implies self.px(a, b) == (Pixel {
                    is_valid: d.row_covers(n + 1, sw, cols, a, self.row_y@[b] as int),
                    ..empty_pixel()
                }) by {
                    assert(self.px(a, b) == g2.px(a, b));
                    assert(g1.inside(a, b));
                    let p = g1.px(a, b);
                    let yy = self.row_y@[b] as int;
                    if b == gy && lo <= a < hi {
                        assert(d.rel_y(n as int) == yy && d.col_lo(n as int, sw) <= a < d.col_hi(n as int, sw, cols));
                        assert(d.row_covers(n + 1, sw, cols, a, yy));
                    } else {
                        if d.row_covers(n + 1, sw, cols, a, yy) {
                            let k = choose|k: int| 0 <= k < n + 1 && is_kept(#[trigger] d.rows@[k]) && d.rel_y(k) == yy
                                && d.col_lo(k, sw) <= a < d.col_hi(k, sw, cols);
                            assert(k != n);
                            assert(d.row_covers(n as int, sw, cols, a, yy));
                        }
                        if d.row_covers(n as int, sw, cols, a, yy) {
                            let k = choose|k: int| 0 <= k < n && is_kept(#[trigger] d.rows@[k]) && d.rel_y(k) == yy
                                && d.col_lo(k, sw) <= a < d.col_hi(k, sw, cols);
                            assert(is_kept(d.rows@[k]));
                            assert(d.row_covers(n + 1, sw, cols, a, yy));
                        }
                    }
                }
            } else {
                assert forall|i: int| 0 <= i < self.row_count implies self.row_y@[i] != yb by {
                    assert(self.row_y@[i] < self.row_y@[gy as int]);
                }
                assert forall|a: int, b: int| #![trigger self.px(a, b)] self.inside(a, b) implies self.px(a, b) == (Pixel {
                    is_valid: d.row_covers(n + 1, sw, cols, a, self.row_y@[b] as int),
                    ..empty_pixel()
                }) by {
                    let yy = self.row_y@[b] as int;
                    if d.row_covers(n + 1, sw, cols, a, yy) {
                        let k = choose|k: int| 0 <= k < n + 1 && is_kept(#[trigger] d.rows@[k]) && d.rel_y(k) == yy
                            && d.col_lo(k, sw) <= a < d.col_hi(k, sw, cols);
                        assert(k != n);
                        assert(d.row_covers(n as int, sw, cols, a, yy));
                    }
                    if d.row_covers(n as int, sw, cols, a, yy) {
                        let k = choose|k: int| 0 <= k < n && is_kept(#[trigger] d.rows@[k]) && d.rel_y(k) == yy
                            && d.col_lo(k, sw) <= a < d.col_hi(k, sw, cols);
                        assert(is_kept(d.rows@[k]));
                        assert(d.row_covers(n + 1, sw, cols, a, yy));
                    }
                }
            }
            n = n + 1;
        }
    }

    /// Change every square an absolute box covers.
    fn stamp_cover(&mut self, d: &GridInput, b: (i32, i32, i32, i32), s: Stamp)
        requires
            old(self).wf(),
            old(self).core == d.core,
        ensures
            final(self).wf(),
            final(self).same_frame(*old(self)),
            forall|gx: int, gy: int| #![trigger final(self).px(gx, gy)] old(self).inside(gx, gy) ==> final(self).px(gx, gy) ==
                if d.box_covers(b, old(self).site_width as int, gx, old(self).row_y@[gy] as int, old(self).row_y@[gy + 1] as int) {
                    stamped(old(self).px(gx, gy), s)
                } else {
                    old(self).px(gx, gy)
                },
    {
        let ghost g0 = *self;
        let sw: i64 = self.site_width as i64;
        let ylo: i64 = b.1 as i64 - self.core.1 as i64;
        let yhi: i64 = b.3 as i64 - self.core.1 as i64;
        let x0: i64 = div_trunc(b.0 as i64 - self.core.0 as i64, sw);
        let x1: i64 = div_trunc(b.2 as i64 - self.core.0 as i64 + sw - 1, sw);
        let rows = self.grid_rows_covering(ylo, yhi);
        let mut k: usize = 0;
        while k < rows.len()
            invariant
                self.wf(),
                self.same_frame(g0),
                g0.wf(),
                k <= rows@.len(),
                forall|j: int| 0 <= j < rows@.len() ==> 0 <= #[trigger] rows@[j] < g0.row_count,
                forall|i: int, j: int| 0 <= i < j < rows@.len() ==> rows@[i] < rows@[j],
                forall|a: int, c: int| #![trigger self.px(a, c)] g0.inside(a, c) ==> self.px(a, c) ==
                    if x0 <= a < x1 && rows@.subrange(0, k as int).contains(c as usize) { stamped(g0.px(a, c), s) } else { g0.px(a, c) },
            decreases rows@.len() - k,
        {
            let gy: i64 = rows[k] as i64;
            let ghost g1 = *self;
            self.stamp_box(x0, gy, x1, gy + 1, s);
            assert forall|a: int, c: int| #![trigger self.px(a, c)] g0.inside(a, c) implies self.px(a, c) ==
                if x0 <= a < x1 && rows@.subrange(0, k + 1).contains(c as usize) { stamped(g0.px(a, c), s) } else { g0.px(a, c) } by {
                assert(g1.inside(a, c));
                let p = g1.px(a, c);
                let s0 = rows@.subrange(0, k as int);
                let s1 = rows@.subrange(0, k + 1);
                if s0.contains(c as usize) {
                    let j = choose|j: int| 0 <= j < s0.len() && s0[j] == c as usize;
                    assert(s1[j] == c as usize);
                    assert(rows@[j] < rows@[k as int]);
                }
                if c == gy {
                    assert(s1[k as int] == c as usize);
                } else if s1.contains(c as usize) {
                    let j = choose|j: int| 0 <= j < s1.len() && s1[j] == c as usize;
                    assert(j < k);
                    assert(s0[j] == c as usize);
                }
            }
            k = k + 1;
        }
        assert forall|gx: int, gy: int| #![trigger self.px(gx, gy)] g0.inside(gx, gy) implies self.px(gx, gy) ==
            if d.box_covers(b, g0.site_width as int, gx, g0.row_y@[gy] as int, g0.row_y@[gy + 1] as int) { stamped(g0.px(gx, gy), s) } else { g0.px(gx, gy) } by {
            assert(rows@.subrange(0, k as int) =~= rows@);
            let i = gy as usize;
            if g0.row_y@[gy] < yhi && g0.row_y@[gy + 1] > ylo {
                assert(g0.row_y@[i as int] < yhi && g0.row_y@[i + 1] > ylo);
                assert(rows@.contains(i));
            } else if rows@.contains(i) {
                let j = choose|j: int| 0 <= j < rows@.len() && rows@[j] == i;
                assert(g0.row_y@[rows@[j] as int] < yhi);
            }
        }
    }

    /// Hard blockages take the squares they cover away; soft ones do not.
    fn mark_blocked(&mut self, d: &GridInput)
        requires
            old(self).wf(),
            old(self).core == d.core,
        ensures
            final(self).wf(),
            final(self).same_frame(*old(self)),
            forall|gx: int, gy: int| #![trigger final(self).px(gx, gy)] old(self).inside(gx, gy) ==> final(self).px(gx, gy) == (Pixel {
                is_valid: old(self).px(gx, gy).is_valid
                    && !d.blocked_upto(d.blockages@.len() as int, old(self).site_width as int, gx, old(self).row_y@[gy] as int, old(self).row_y@[gy + 1] as int),
                ..old(self).px(gx, gy)
            }),
    {
        let ghost g0 = *self;
        let mut n: usize = 0;
        while n < d.blockages.len()
            invariant
                self.wf(),
                self.same_frame(g0),
                g0.core == d.core,
                n <= d.blockages@.len(),
                forall|gx: int, gy: int| #![trigger self.px(gx, gy)] g0.inside(gx, gy) ==> self.px(gx, gy) == (Pixel {
                    is_valid: g0.px(gx, gy).is_valid && !d.blocked_upto(n as int, g0.site_width as int, gx, g0.row_y@[gy] as int, g0.row_y@[gy + 1] as int),
                    ..g0.px(gx, gy)
                }),
            decreases d.blockages@.len() - n,
        {
            let ghost g1 = *self;
            if !d.blockages[n].1 {
                self.stamp_cover(d, d.blockages[n].0, Stamp::Invalidate);
            }
            assert forall|gx: int, gy: int| #![trigger self.px(gx, gy)] g0.inside(gx, gy) implies self.px(gx, gy) == (Pixel {
                    is_valid: g0.px(gx, gy).is_valid && !d.blocked_upto(n + 1, g0.site_width as int, gx, g0.row_y@[gy] as int, g0.row_y@[gy + 1] as int),
                    ..g0.px(gx, gy)
                }) by {
                let p = g1.px(gx, gy);
                assert(g1.inside(gx, gy));
                let sw = g0.site_width as int;
                let lo = g0.row_y@[gy] as int;
                let hi = g0.row_y@[gy + 1] as int;
                let b = d.blockages@[n as int];
                if d.blocked_upto(n + 1, sw, gx, lo, hi) {
                    let j = choose|j: int| 0 <= j < n + 1 && !(#[trigger] d.blockages@[j]).1 && d.box_covers(d.blockages@[j].0, sw, gx, lo, hi);
                    if j < n {
                        assert(d.blocked_upto(n as int, sw, gx, lo, hi));
                    }
                }
                if d.blocked_upto(n as int, sw, gx, lo, hi) {
                    let j = choose|j: int| 0 <= j < n && !(#[trigger] d.blockages@[j]).1 && d.box_covers(d.blockages@[j].0, sw, gx, lo, hi);
                    assert(!d.blockages@[j].1);
                    assert(d.blocked_upto(n + 1, sw, gx, lo, hi));
                }
                if !b.1 && d.box_covers(b.0, sw, gx, lo, hi) {
                    assert(d.blocked_upto(n + 1, sw, gx, lo, hi));
                }
            }
            n = n + 1;
        }
    }

    /// Special wires block their routing level in the squares they cross.
    fn mark_blocked_layers(&mut self, d: &GridInput)
        requires
            old(self).wf(),
            d.in_range(),
            old(self).core == d.core,
            !old(self).blocked_layers_populated,
            forall|gx: int, gy: int| #![trigger old(self).px(gx, gy)] old(self).inside(gx, gy) ==> old(self).px(gx, gy).blocked_layers == 0,
        ensures
            final(self).wf(),
            final(self).blocked_layers_populated == (d.straps@.len() > 0),
            final(self).same_frame(Grid { blocked_layers_populated: d.straps@.len() > 0, ..*old(self) }),
            forall|gx: int, gy: int| #![trigger final(self).px(gx, gy)] old(self).inside(gx, gy) ==> final(self).px(gx, gy) == (Pixel {
                blocked_layers: d.levels_upto(d.straps@.len() as int, old(self).site_width as int, gx, old(self).row_y@[gy] as int, old(self).row_y@[gy + 1] as int),
                ..old(self).px(gx, gy)
            }),
    {
        let ghost g0 = *self;
        let mut n: usize = 0;
        while n < d.straps.len()
            invariant
                self.wf(),
                d.in_range(),
                self.same_frame(g0),
                g0.core == d.core,
                n <= d.straps@.len(),
                forall|gx: int, gy: int| #![trigger self.px(gx, gy)] g0.inside(gx, gy) ==> self.px(gx, gy) == (Pixel {
                    blocked_layers: d.levels_upto(n as int, g0.site_width as int, gx, g0.row_y@[gy] as int, g0.row_y@[gy + 1] as int),
                    ..g0.px(gx, gy)
                }),
            decreases d.straps@.len() - n,
        {
            let ghost g1 = *self;
            let level: u32 = d.straps[n].0;
            self.stamp_cover(d, d.straps[n].1, Stamp::Block(1u32 << level));
            assert forall|gx: int, gy: int| #![trigger self.px(gx, gy)] g0.inside(gx, gy) implies self.px(gx, gy) == (Pixel {
                    blocked_layers: d.levels_upto(n + 1, g0.site_width as int, gx, g0.row_y@[gy] as int, g0.row_y@[gy + 1] as int),
                    ..g0.px(gx, gy)
                }) by {
                let p = g1.px(gx, gy);
                assert(g1.inside(gx, gy));
            }
            n = n + 1;
        }
        let ghost g3 = *self;
        if d.straps.len() > 0 {
            self.blocked_layers_populated = true;
            assert forall|gx: int, gy: int| #![trigger self.px(gx, gy)] g0.inside(gx, gy) implies self.px(gx, gy) == (Pixel {
                    blocked_layers: d.levels_upto(d.straps@.len() as int, g0.site_width as int, gx, g0.row_y@[gy] as int, g0.row_y@[gy + 1] as int),
                    ..g0.px(gx, gy)
                }) by {
                assert(self.px(gx, gy) == g3.px(gx, gy));
            }
        }
    }

    /// Make the grid: mark the rows' squares valid, then take away what hard blockages cover and
    /// note the routing levels that special wires block.
    pub fn build(d: &GridInput) -> (r: Result<Grid, GridError>)
        requires
            d.in_range(),
        ensures
            match r {
                Err(e) => d.refused(e),
                Ok(g) => {
                    &&& d.makeable()
                    &&& d.makes(g)
                },
            },
    {
        let (sw, row_y) = match scan_rows(d) {
            Err(e) => return Err(e),
            Ok(v) => v,
        };
        let rows: usize = row_y.len() - 1;
        let cols64: i64 = max64(div_trunc(d.core.2 as i64 - d.core.0 as i64, sw as i64), 0);
        proof {
            let a = d.core.2 - d.core.0;
            if a >= 0 {
                crate::arith::lemma_quot_bound(a, sw as int);
                assert(cols64 == a / sw as int);
                assert(cols64 * sw == (a / sw as int) * sw) by (nonlinear_arith)
                    requires cols64 == a / sw as int;
            } else {
                crate::arith::lemma_quot_bound(-a, sw as int);
                assert(cols64 == 0);
                assert(cols64 * sw == 0) by (nonlinear_arith)
                    requires cols64 == 0;
            }
            assert(cols64 * sw <= i32::MAX);
            assert(rows * cols64 <= 2 * d.rows@.len() * imax(a, 0)) by (nonlinear_arith)
                requires rows <= 2 * d.rows@.len(), 0 <= cols64 <= imax(a, 0), rows >= 0;
            assert(row_y@.contains(row_y@[0]));
            assert(row_y@.contains(row_y@[rows as int]));
            assert(d.is_edge(d.rows@.len() as int, row_y@[0] as int));
            assert(d.is_edge(d.rows@.len() as int, row_y@[rows as int] as int));
        }
        let cols: usize = cols64 as usize;
        let mut g = Grid {
            core: d.core,
            site_width: sw,
            row_count: rows,
            row_site_count: cols,
            pixels: empty_pixels(rows, cols),
            row_sites: empty_rows(rows),
            row_y,
            row_orient: r0_rows(rows),
            blocked_layers_populated: false,
        };
        proof {
            assert(g.row_site_count * g.site_width == cols64 * sw);
            assert(g.row_count * g.row_site_count <= usize::MAX);
            assert(g.row_y@[g.row_count as int] - g.row_y@[0] <= i32::MAX);
            assert(g.wf());
            assert forall|gx: int, gy: int| #![trigger g.px(gx, gy)] g.inside(gx, gy) implies g.px(gx, gy) == empty_pixel() by {
                assert(g.pixels@[gy]@[gx] == empty_pixel());
            }
        }
        g.mark_rows(d);
        let ghost g1 = g;
        g.mark_blocked(d);
        let ghost g2 = g;
        g.mark_blocked_layers(d);
        assert forall|gx: int, gy: int| #![trigger g.px(gx, gy)] g.inside(gx, gy) implies g.px(gx, gy) == (Pixel {
            is_valid: d.row_covers(d.rows@.len() as int, sw as int, cols as int, gx, g.row_y@[gy] as int)
                && !d.blocked_upto(d.blockages@.len() as int, sw as int, gx, g.row_y@[gy] as int, g.row_y@[gy + 1] as int),
            blocked_layers: d.levels_upto(d.straps@.len() as int, sw as int, gx, g.row_y@[gy] as int, g.row_y@[gy + 1] as int),
            ..empty_pixel()
        }) by {
            assert(g1.inside(gx, gy) && g2.inside(gx, gy));
            let p1 = g1.px(gx, gy);
            let p2 = g2.px(gx, gy);
        }
        Ok(g)
    }
}

} // verus!
