//! What setting up and the stages say of themselves, line by line.

use vstd::prelude::*;
use crate::checks::Checks;
use crate::driver::{Finish, Stage};
use crate::text::{append_decimal, append_signed, decimal, signed_decimal, texts};

verus! {

/// A number between two texts.
fn one(a: &str, x: i128, b: &str) -> (r: String)
    ensures
        r@ == a@ + signed_decimal(x as int) + b@,
{
    let mut r: String = a.to_owned();
    append_signed(&mut r, x);
    r.append(b);
    r
}

/// Two numbers between texts.
fn two(a: &str, x: i128, b: &str, y: i128, c: &str) -> (r: String)
    ensures
        r@ == a@ + signed_decimal(x as int) + b@ + signed_decimal(y as int) + c@,
{
    let mut r: String = one(a, x, b);
    append_signed(&mut r, y);
    r.append(c);
    r
}

// ── setting up ───────────────────────────────────────────────────────────────────────────────

pub open spec fn seed_text(seed: int) -> Seq<char> {
    "[INFO DPL-0401] Setting random seed to "@ + signed_decimal(seed) + "."@
}

pub open spec fn displacement_text(request: (int, int), reach: (int, int)) -> Seq<char> {
    "[INFO DPL-0402] Setting maximum displacement "@ + signed_decimal(request.0) + " "@ + signed_decimal(request.1) + " to "@
        + signed_decimal(reach.0) + " "@ + signed_decimal(reach.1) + " units."@
}

pub open spec fn fixed_text(n: int) -> Seq<char> {
    "[INFO DPL-0320] Collected "@ + signed_decimal(n) + " fixed cells."@
}

pub open spec fn single_text(n: int) -> Seq<char> {
    "[INFO DPL-0318] Collected "@ + signed_decimal(n) + " single height cells."@
}

pub open spec fn multi_text(n: int, rows: int) -> Seq<char> {
    "[INFO DPL-0319] Collected "@ + signed_decimal(n) + " multi-height cells spanning "@ + signed_decimal(rows) + " rows."@
}

pub open spec fn wide_text(n: int) -> Seq<char> {
    "[INFO DPL-0321] Collected "@ + signed_decimal(n) + " wide cells."@
}

pub open spec fn image_text(lo: (int, int), hi: (int, int)) -> Seq<char> {
    "[INFO DPL-0322] Image ("@ + signed_decimal(lo.0) + ", "@ + signed_decimal(lo.1) + ") - ("@ + signed_decimal(hi.0) + ", "@
        + signed_decimal(hi.1) + ")"@
}

/// The lines on the cells of the first `n` heights, one for each height that some have.
pub open spec fn multi_texts(multi: Seq<Seq<usize>>, n: int) -> Seq<Seq<char>>
    decreases n,
{
    if n <= 0 {
        Seq::empty()
    } else if multi[n - 1].len() > 0 {
        multi_texts(multi, n - 1).push(multi_text(multi[n - 1].len() as int, n - 1))
    } else {
        multi_texts(multi, n - 1)
    }
}

/// The multiple of `unit` nearest to `x`, the even one of two.
pub open spec fn nearest(x: int, unit: int) -> int {
    let (q, r) = (x / unit, x % unit);
    if 2 * r < unit || (2 * r == unit && q % 2 == 0) { q * unit } else { (q + 1) * unit }
}

/// The number of 53 bits and some zeros that is nearest to `x`, where that takes at least `unit`.
pub open spec fn rounded(x: int, unit: int) -> int
    decreases x - unit,
{
    if unit <= 0 || x < 0x20_0000_0000_0000 * unit { nearest(x, unit) } else { rounded(x, 2 * unit) }
}

/// How many cells went into segments, and how far they moved.
pub open spec fn snap_text(count: int, x: int, y: int) -> Seq<char> {
    "[INFO DPL-0310] Assigned "@ + signed_decimal(count) + " cells into segments.  Movement in X-direction is "@
        + decimal(rounded(x, 1) as nat) + ".000000, movement in Y-direction is "@ + decimal(rounded(y, 1) as nat) + ".000000."@
}

fn round53(x: i64) -> (r: u128)
    requires
        x >= 0,
    ensures
        r == rounded(x as int, 1),
{
    let v: u128 = x as u128;
    let mut unit: u128 = 1;
    while v >= 0x20_0000_0000_0000 * unit
        invariant
            v == x,
            1 <= unit <= 0x1000,
            unit == 1 || 0x10_0000_0000_0000 * unit <= v,
            rounded(x as int, 1) == rounded(x as int, unit as int),
        decreases v - unit,
    {
        unit = 2 * unit;
    }
    let (q, r): (u128, u128) = (v / unit, v % unit);
    proof {
        assert(q * unit <= v && (q + 1) * unit <= v + unit) by (nonlinear_arith)
            requires q == v / unit, unit >= 1;
        assert(q * unit >= 0) by (nonlinear_arith)
            requires q >= 0, unit >= 1;
    }
    if 2 * r < unit || (2 * r == unit && q % 2 == 0) { q * unit } else { (q + 1) * unit }
}

pub(crate) fn snap_line(count: usize, x: i64, y: i64) -> (r: String)
    requires
        x >= 0,
        y >= 0,
    ensures
        r@ == snap_text(count as int, x as int, y as int),
{
    let mut r: String = one("[INFO DPL-0310] Assigned ", count as i128, " cells into segments.  Movement in X-direction is ");
    append_decimal(&mut r, round53(x));
    r.append(".000000, movement in Y-direction is ");
    append_decimal(&mut r, round53(y));
    r.append(".000000.");
    r
}

/// The lines on the cells by their heights.
pub(crate) fn multi_lines(multi: &Vec<Vec<usize>>) -> (r: Vec<String>)
    ensures
        texts(r@) == multi_texts(crate::segments::lists(multi@), multi@.len() as int),
{
    let mut r: Vec<String> = Vec::new();
    assert(texts(r@) =~= Seq::empty());
    let mut k: usize = 0;
    while k < multi.len()
        invariant
            k <= multi@.len(),
            texts(r@) == multi_texts(crate::segments::lists(multi@), k as int),
        decreases multi@.len() - k,
    {
        let n: usize = multi[k].len();
        assert(crate::segments::lists(multi@)[k as int].len() == n);
        if n > 0 {
            let ghost r0 = r@;
            let s = two("[INFO DPL-0319] Collected ", n as i128, " multi-height cells spanning ", k as i128, " rows.");
            r.push(s);
            assert(texts(r@) =~= texts(r0).push(s@));
        }
        k = k + 1;
    }
    r
}

pub(crate) fn seed_line(seed: u32) -> (r: String)
    ensures
        r@ == seed_text(seed as int),
{
    one("[INFO DPL-0401] Setting random seed to ", seed as i128, ".")
}

pub(crate) fn displacement_line(request: (i32, i32), reach: (i32, i32)) -> (r: String)
    ensures
        r@ == displacement_text((request.0 as int, request.1 as int), (reach.0 as int, reach.1 as int)),
{
    let mut r: String = two("[INFO DPL-0402] Setting maximum displacement ", request.0 as i128, " ", request.1 as i128, " to ");
    append_signed(&mut r, reach.0 as i128);
    r.append(" ");
    append_signed(&mut r, reach.1 as i128);
    r.append(" units.");
    r
}

pub(crate) fn fixed_line(n: usize) -> (r: String)
    ensures
        r@ == fixed_text(n as int),
{
    one("[INFO DPL-0320] Collected ", n as i128, " fixed cells.")
}

pub(crate) fn single_line(n: usize) -> (r: String)
    ensures
        r@ == single_text(n as int),
{
    one("[INFO DPL-0318] Collected ", n as i128, " single height cells.")
}

pub(crate) fn wide_line(n: usize) -> (r: String)
    ensures
        r@ == wide_text(n as int),
{
    one("[INFO DPL-0321] Collected ", n as i128, " wide cells.")
}

pub(crate) fn image_line(lo: (i64, i64), hi: (i64, i64)) -> (r: String)
    ensures
        r@ == image_text((lo.0 as int, lo.1 as int), (hi.0 as int, hi.1 as int)),
{
    let mut r: String = two("[INFO DPL-0322] Image (", lo.0 as i128, ", ", lo.1 as i128, ") - (");
    append_signed(&mut r, hi.0 as i128);
    r.append(", ");
    append_signed(&mut r, hi.1 as i128);
    r.append(")");
    r
}

// ── checks ───────────────────────────────────────────────────────────────────────────────────

impl Checks {
    /// What the checks say.
    pub open spec fn said(&self) -> Seq<Seq<char>> {
        seq![
            "[INFO DPL-0313] Found "@ + signed_decimal(self.wrong_region as int) + " cells in wrong regions."@,
            "[INFO DPL-0315] Found "@ + signed_decimal(self.row_alignment as int) + " row alignment problems."@,
            "[INFO DPL-0314] Found "@ + signed_decimal(self.site_alignment as int) + " site alignment problems."@,
            "[INFO DPL-0311] Found "@ + signed_decimal(self.overlaps as int) + " overlaps between adjacent cells."@,
            "[INFO DPL-0312] Found "@ + signed_decimal(self.edge_spacing as int) + " edge spacing violations and "@
                + signed_decimal(self.padding as int) + " padding violations."@,
        ]
    }

    /// What the checks say.
    pub fn lines(&self) -> (r: Vec<String>)
        ensures
            texts(r@) == self.said(),
    {
        let mut r: Vec<String> = Vec::new();
        r.push(one("[INFO DPL-0313] Found ", self.wrong_region as i128, " cells in wrong regions."));
        r.push(one("[INFO DPL-0315] Found ", self.row_alignment as i128, " row alignment problems."));
        r.push(one("[INFO DPL-0314] Found ", self.site_alignment as i128, " site alignment problems."));
        r.push(one("[INFO DPL-0311] Found ", self.overlaps as i128, " overlaps between adjacent cells."));
        r.push(two("[INFO DPL-0312] Found ", self.edge_spacing as i128, " edge spacing violations and ", self.padding as i128, " padding violations."));
        assert(texts(r@) =~= self.said());
        r
    }
}

// ── stages ───────────────────────────────────────────────────────────────────────────────────

/// What is said before an algorithm runs.
pub open spec fn running_text(what: Seq<char>) -> Seq<char> {
    "[INFO DPL-0303] Running algorithm for "@ + what + "."@
}

/// What is said before an algorithm runs.
pub fn running_line(what: &str) -> (r: String)
    ensures
        r@ == running_text(what@),
{
    let mut r: String = "[INFO DPL-0303] Running algorithm for ".to_owned();
    r.append(what);
    r.append(".");
    r
}

impl Stage {
    /// What a stage says before anything else.
    pub open spec fn opening(self) -> Seq<Seq<char>> {
        match self {
            Stage::Matching => seq![running_text(self.what()), "[INFO DPL-0300] Set matching objective is wirelength."@],
            Stage::Random => seq![
                running_text(self.what()),
                "[INFO DPL-0324] Random improver is using random generator."@,
                "[INFO DPL-0325] Random improver is using hpwl objective."@,
                "[INFO DPL-0326] Random improver cost string is (a)."@,
            ],
            _ => seq![running_text(self.what())],
        }
    }

    /// What a stage says before anything else.
    pub fn opening_lines(self) -> (r: Vec<String>)
        ensures
            texts(r@) == self.opening(),
    {
        let mut r: Vec<String> = Vec::new();
        r.push(running_line(self.title()));
        match self {
            Stage::Matching => {
                r.push("[INFO DPL-0300] Set matching objective is wirelength.".to_owned());
            },
            Stage::Random => {
                r.push("[INFO DPL-0324] Random improver is using random generator.".to_owned());
                r.push("[INFO DPL-0325] Random improver is using hpwl objective.".to_owned());
                r.push("[INFO DPL-0326] Random improver cost string is (a).".to_owned());
            },
            _ => {},
        }
        assert(texts(r@) =~= self.opening());
        r
    }

    /// What a stage says where there is nothing to move, if it says that.
    pub open spec fn idle(self) -> Option<Seq<char>> {
        match self {
            Stage::Matching => Some("[INFO DPL-0202] No movable cells found"@),
            Stage::Random => Some("[INFO DPL-0203] No movable cells found"@),
            _ => None,
        }
    }

    /// What a stage says where there is nothing to move, if it says that.
    pub fn idle_line(self) -> (r: Option<String>)
        ensures
            match self.idle() {
                Some(t) => r matches Some(s) && s@ == t,
                None => r is None,
            },
    {
        match self {
            Stage::Matching => Some("[INFO DPL-0202] No movable cells found".to_owned()),
            Stage::Random => Some("[INFO DPL-0203] No movable cells found".to_owned()),
            _ => None,
        }
    }
}

/// A number in at least `width` places, with spaces before it.
pub open spec fn padded(x: nat, width: int) -> Seq<char> {
    spaces(width - decimal(x).len()) + decimal(x)
}

/// So many spaces.
pub open spec fn spaces(n: int) -> Seq<char> {
    Seq::new((if n < 0 { 0 } else { n }) as nat, |k: int| ' ')
}

/// How often random moves were tried since the first pass, and how they went.
#[derive(Debug, Clone, Copy, PartialEq, Eq, Structural, Default)]
pub struct Trials {
    pub attempts: u64,
    pub moves: u64,
    pub swaps: u64,
}

impl Trials {
    /// What is said at the end of a pass of random moves, `calls` of them.
    pub open spec fn said(&self, calls: int) -> Seq<Seq<char>> {
        seq![
            "[INFO DPL-0332] End of pass, Generator random called "@ + signed_decimal(calls) + " times."@,
            "[INFO DPL-0335] Generator random, Cumulative attempts "@ + signed_decimal(self.attempts as int) + ", swaps "@
                + signed_decimal(self.swaps as int) + ", moves "@ + padded(self.moves as nat, 5) + " since last reset."@,
        ]
    }

    /// What is said at the end of a pass of random moves.
    pub fn lines(&self, calls: u64) -> (r: Vec<String>)
        ensures
            texts(r@) == self.said(calls as int),
    {
        let mut v: Vec<String> = Vec::new();
        v.push(one("[INFO DPL-0332] End of pass, Generator random called ", calls as i128, " times."));
        let mut r: String = two(
            "[INFO DPL-0335] Generator random, Cumulative attempts ",
            self.attempts as i128,
            ", swaps ",
            self.swaps as i128,
            ", moves ",
        );
        append_padded(&mut r, self.moves as u128, 5);
        r.append(" since last reset.");
        v.push(r);
        assert(texts(v@) =~= self.said(calls as int));
        v
    }
}

/// Append a number in at least `width` places.
fn append_padded(s: &mut String, x: u128, width: usize)
    ensures
        final(s)@ == old(s)@ + padded(x as nat, width as int),
{
    let mut digits: String = "".to_owned();
    append_decimal(&mut digits, x);
    proof {
        reveal_strlit("");
        reveal_strlit(" ");
        assert(digits@ =~= decimal(x as nat));
    }
    let n: usize = digits.unicode_len();
    let mut k: usize = n;
    assert(s@ =~= old(s)@ + spaces(k - n));
    while k < width
        invariant
            n <= k,
            k <= width || k == n,
            n == decimal(x as nat).len(),
            s@ == old(s)@ + spaces(k - n),
            " "@ =~= seq![' '],
        decreases width - k,
    {
        let ghost s0 = s@;
        s.append(" ");
        assert(spaces(k + 1 - n) =~= spaces(k - n) + " "@);
        assert(s@ =~= old(s)@ + spaces(k + 1 - n));
        k = k + 1;
    }
    assert(spaces(k - n) =~= spaces(width - n));
    s.append(digits.as_str());
    assert(s@ =~= old(s)@ + padded(x as nat, width as int));
}

// ── the finish ───────────────────────────────────────────────────────────────────────────────

impl Finish {
    /// What turning the cells says, before the length it leads to. Where the nets have no length nothing is
    /// turned, and nothing more said.
    pub open spec fn said(&self) -> Seq<Seq<char>> {
        let start = seq!["[INFO DPL-0380] Cell flipping."@];
        let unfit = if self.turns.0 != 0 {
            seq!["[WARNING DPL-0381] Encountered "@ + signed_decimal(self.turns.0 as int) + " issues when orienting cells for rows."@]
        } else {
            Seq::empty()
        };
        let turned = seq![
            "[INFO DPL-0382] Changed "@ + signed_decimal(self.turns.1 as int) + " cell orientations for row compatibility."@,
            "[INFO DPL-0383] Performed "@ + signed_decimal(self.turns.2 as int) + " cell flips."@,
        ];
        if self.lengths.0 == 0 { start } else { start + unfit + turned }
    }

    /// What turning the cells says, before the length it leads to.
    pub fn turn_lines(&self) -> (r: Vec<String>)
        ensures
            texts(r@) == self.said(),
    {
        let mut r: Vec<String> = Vec::new();
        r.push("[INFO DPL-0380] Cell flipping.".to_owned());
        if self.lengths.0 != 0 {
            if self.turns.0 != 0 {
                r.push(one("[WARNING DPL-0381] Encountered ", self.turns.0 as i128, " issues when orienting cells for rows."));
            }
            r.push(one("[INFO DPL-0382] Changed ", self.turns.1 as i128, " cell orientations for row compatibility."));
            r.push(one("[INFO DPL-0383] Performed ", self.turns.2 as i128, " cell flips."));
        }
        assert(texts(r@) =~= self.said());
        r
    }
}

} // verus!
