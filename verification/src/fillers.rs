//! Filler placement: every run of empty sites is filled with filler masters.
//!
//! [`get_masters_arg`] picks the masters, [`filter_filler_masters`] drops those that cannot fill and
//! [`split_by_implant`] groups the rest, widest first. [`set_grid_cells`] says which instance holds
//! each square; [`place_row_fillers`] walks the runs of a row and asks [`gap_fillers`] for each.
//!
//! Filling only adds: no instance that is already there moves.

use vstd::prelude::*;
use crate::arith::{div_trunc, max64, min64, trunc_quot};
use crate::globs::{glob, made, Names};
use crate::grid::{height_of, in_box, site_height, Grid, GridError, GridInput};
use crate::regions::Box4;
use crate::sort::{in_order, sorted, Keyed};
use crate::text::{append_decimal, decimal, same_text};

pub use crate::globs::{tcl_string_match, UniqueNames};

verus! {

/// One filler master as the fill reads it.
#[derive(Debug, PartialEq, Eq)]
pub struct FillerMaster {
    pub name: String,
    pub width: i32,
    pub height: i32,
    /// The implant layer of its first implant obstruction, by layer number.
    pub implant: Option<i64>,
}

/// An obstruction of a master: its layer's number and type, and its box.
#[derive(Debug)]
pub struct Obstruction {
    pub layer: i64,
    pub layer_type: String,
    pub rect: Box4,
}

/// A master of the libraries.
#[derive(Debug)]
pub struct LibMaster {
    pub name: String,
    pub width: i32,
    pub height: i32,
    pub obstructions: Vec<Obstruction>,
    pub is_pad: bool,
    pub is_block: bool,
}

/// One filler the fill decided on.
#[derive(Debug, PartialEq, Eq)]
pub struct Filler {
    pub name: String,
    pub master: String,
    pub x: i32,
    pub y: i32,
    pub orient: String,
}

/// Masters by implant layer: no implant first, then by layer number.
pub type ByImplant = Vec<(Option<i64>, Vec<FillerMaster>)>;

/// A run of empty sites that no combination of fillers fits.
#[derive(Debug, PartialEq, Eq)]
pub struct Gap {
    pub sites: i32,
    pub width: i32,
    pub height: i32,
    pub x: i32,
    pub y: i32,
    pub left: String,
    pub right: String,
}

/// What stops the fill.
#[derive(Debug, PartialEq, Eq)]
pub enum FillError {
    /// No pattern matched any master.
    NoMasters(String),
    /// A neighbour's implant has no fillers.
    NoFillersForImplant(i64),
    /// A gap no combination of fillers fits.
    CannotFill(Gap),
    /// A valid square, by row and column, that no row site covers.
    NoSite(usize, usize),
    /// The grid could not be built.
    Grid(GridError),
}

/// The fillers in creation order, and the patterns that matched nothing.
#[derive(Debug)]
pub struct FillReport {
    pub fillers: Vec<Filler>,
    pub unmatched_patterns: Vec<String>,
}

// ── filling a gap ────────────────────────────────────────────────────────────────────────────

/// A master's width in whole sites.
pub open spec fn sites_of(m: FillerMaster, site_width: int) -> int {
    trunc_quot(m.width as int, site_width)
}

/// Whether the narrowest master, the last, is one site wide.
pub open spec fn has_single(group: Seq<FillerMaster>, site_width: int) -> bool {
    group.len() > 0 && group.last().width == site_width
}

/// Whether a master of `w` sites may come next in a gap filled up to `width`: it fits, and does not
/// leave one site that nothing fills.
pub open spec fn may_take(w: int, width: int, gap: int, single: bool) -> bool {
    width + w <= gap && (single || width + w != gap - 1)
}

/// How masters from number `i` on fill a gap filled up to `width`: each is taken as often as it may
/// be. `None` where that does not fill the gap.
pub open spec fn greedy(group: Seq<FillerMaster>, i: int, width: int, gap: int, row_height: int, site_width: int) -> Option<Seq<usize>>
    decreases group.len() - i, gap - width,
{
    if i < 0 || i >= group.len() {
        None
    } else {
        let w = sites_of(group[i], site_width);
        if group[i].height != row_height || w <= 0 || !may_take(w, width, gap, has_single(group, site_width)) {
            greedy(group, i + 1, width, gap, row_height, site_width)
        } else if width + w == gap {
            Some(seq![i as usize])
        } else {
            match greedy(group, i, width + w, gap, row_height, site_width) {
                Some(s) => Some(seq![i as usize] + s),
                None => None,
            }
        }
    }
}

/// The masters that fill a gap, empty where they cannot.
pub open spec fn gap_fill(group: Seq<FillerMaster>, gap: int, row_height: int, site_width: int) -> Seq<usize> {
    match greedy(group, 0, 0, gap, row_height, site_width) {
        Some(s) => s,
        None => Seq::empty(),
    }
}

/// The sites that a list of masters covers.
pub open spec fn filled(group: Seq<FillerMaster>, s: Seq<usize>, site_width: int) -> int
    decreases s.len(),
{
    if s.len() == 0 { 0 } else { sites_of(group[s[0] as int], site_width) + filled(group, s.skip(1), site_width) }
}

/// All masters of a list have the row's height and a width, and they come in the group's order.
pub open spec fn is_filling(group: Seq<FillerMaster>, s: Seq<usize>, row_height: int, site_width: int) -> bool {
    &&& forall|k: int| 0 <= k < s.len() ==> (#[trigger] s[k]) < group.len() && group[s[k] as int].height == row_height
        && sites_of(group[s[k] as int], site_width) > 0
    &&& forall|k: int| 0 <= k < s.len() - 1 ==> (#[trigger] s[k]) <= s[k + 1]
}

proof fn lemma_greedy(group: Seq<FillerMaster>, i: int, width: int, gap: int, row_height: int, site_width: int)
    requires
        0 <= i,
        group.len() <= usize::MAX,
    ensures
        greedy(group, i, width, gap, row_height, site_width) matches Some(s) ==> {
            &&& s.len() > 0
            &&& width + filled(group, s, site_width) == gap
            &&& forall|k: int| 0 <= k < s.len() ==> {
                &&& i <= (#[trigger] s[k]) < group.len()
                &&& group[s[k] as int].height == row_height
                &&& sites_of(group[s[k] as int], site_width) > 0
            }
            &&& forall|k: int| 0 <= k < s.len() - 1 ==> (#[trigger] s[k]) <= s[k + 1]
        },
    decreases group.len() - i, gap - width,
{
    if i < group.len() {
        let w = sites_of(group[i], site_width);
        if group[i].height != row_height || w <= 0 || !may_take(w, width, gap, has_single(group, site_width)) {
            lemma_greedy(group, i + 1, width, gap, row_height, site_width);
        } else if width + w == gap {
            let s = seq![i as usize];
            assert(s.skip(1) =~= Seq::empty());
            assert(filled(group, s.skip(1), site_width) == 0);
        } else {
            lemma_greedy(group, i, width + w, gap, row_height, site_width);
            if let Some(t) = greedy(group, i, width + w, gap, row_height, site_width) {
                let s = seq![i as usize] + t;
                assert(s.skip(1) =~= t);
                assert forall|k: int| 0 <= k < s.len() implies {
                    &&& i <= (#[trigger] s[k]) < group.len()
                    &&& group[s[k] as int].height == row_height
                    &&& sites_of(group[s[k] as int], site_width) > 0
                } by {
                    if k > 0 {
                        assert(s[k] == t[k - 1]);
                    }
                }
                assert forall|k: int| 0 <= k < s.len() - 1 implies (#[trigger] s[k]) <= s[k + 1] by {
                    assert(s[k + 1] == t[k]);
                    if k > 0 {
                        assert(s[k] == t[k - 1]);
                        assert(t[k - 1] <= t[k - 1 + 1]);
                    } else {
                        assert(i <= t[0]);
                    }
                }
            }
        }
    }
}

/// Masters that fill a gap cover exactly the gap, all have the row's height, and come in the order
/// of the group, so widest first in a group sorted that way.
pub proof fn law_gap_is_filled_exactly(group: Seq<FillerMaster>, gap: int, row_height: int, site_width: int)
    requires
        group.len() <= usize::MAX,
    ensures
        gap_fill(group, gap, row_height, site_width).len() > 0 ==> filled(group, gap_fill(group, gap, row_height, site_width), site_width) == gap,
        is_filling(group, gap_fill(group, gap, row_height, site_width), row_height, site_width),
{
    lemma_greedy(group, 0, 0, gap, row_height, site_width);
}

/// The masters, as positions in the group, that fill a gap of sites: those of the row's height, each
/// taken as often as fits in the order of the group, never leaving a single site unless the last
/// master of the group is one site wide. Empty where no gap is filled exactly that way.
pub fn gap_fillers(group: &[FillerMaster], gap: i32, row_height: i32, site_width: i32) -> (r: Vec<usize>)
    requires
        site_width > 0,
    ensures
        r@ == gap_fill(group@, gap as int, row_height as int, site_width as int),
{
    let n: usize = group.len();
    let mut out: Vec<usize> = Vec::new();
    if n == 0 {
        assert(greedy(group@, 0, 0, gap as int, row_height as int, site_width as int) is None);
        assert(out@ =~= Seq::empty());
        return out;
    }
    let single: bool = group[n - 1].width == site_width;
    let mut width: i64 = 0;
    let mut i: usize = 0;
    let ghost all = greedy(group@, 0, 0, gap as int, row_height as int, site_width as int);
    while i < n
        invariant
            n == group@.len(),
            site_width > 0,
            single == has_single(group@, site_width as int),
            i <= n,
            0 <= width,
            width == 0 || width < gap,
            all == greedy(group@, 0, 0, gap as int, row_height as int, site_width as int),
            ({
                let rest = greedy(group@, i as int, width as int, gap as int, row_height as int, site_width as int);
                &&& all is Some <==> rest is Some
                &&& all is Some ==> all->Some_0 == out@ + rest->Some_0
            }),
        decreases n - i, gap - width,
    {
        let w: i64 = div_trunc(group[i].width as i64, site_width as i64);
        if group[i].height != row_height || w <= 0 || width + w > gap as i64 || (!single && width + w == gap as i64 - 1) {
            i = i + 1;
        } else {
            let ghost rest = greedy(group@, i as int, width as int, gap as int, row_height as int, site_width as int);
            let ghost before = out@;
            let ghost w0 = width;
            out.push(i);
            width = width + w;
            if width == gap as i64 {
                assert(rest == Some(seq![i]));
                assert(out@ =~= before + seq![i]);
                return out;
            }
            proof {
                let next = greedy(group@, i as int, width as int, gap as int, row_height as int, site_width as int);
                if let Some(t) = next {
                    assert(before + (seq![i] + t) =~= out@ + t);
                }
            }
        }
    }
    assert(all is None);
    let none: Vec<usize> = Vec::new();
    assert(none@ =~= Seq::empty());
    none
}

// ── masters ──────────────────────────────────────────────────────────────────────────────────

/// The layer of the first of the obstructions from `i` on that is on an implant layer.
pub open spec fn implant_of(obs: Seq<Obstruction>, i: int) -> Option<i64>
    decreases obs.len() - i,
{
    if i < 0 || i >= obs.len() {
        None
    } else if obs[i].layer_type@ == "IMPLANT"@ {
        Some(obs[i].layer)
    } else {
        implant_of(obs, i + 1)
    }
}

/// The layer of a master's first obstruction on an implant layer.
pub fn master_implant(obs: &Vec<Obstruction>) -> (r: Option<i64>)
    ensures
        r == implant_of(obs@, 0),
{
    let mut i: usize = 0;
    while i < obs.len()
        invariant
            i <= obs@.len(),
            implant_of(obs@, i as int) == implant_of(obs@, 0),
        decreases obs@.len() - i,
    {
        if same_text(obs[i].layer_type.as_str(), "IMPLANT") {
            return Some(obs[i].layer);
        }
        i = i + 1;
    }
    None
}

/// A library master as the fill reads it.
pub open spec fn is_read(m: LibMaster, f: FillerMaster) -> bool {
    f.name == m.name && f.width == m.width && f.height == m.height && f.implant == implant_of(m.obstructions@, 0)
}

/// The first `n` masters that a pattern matches.
pub open spec fn matches_of(lib: Seq<LibMaster>, pattern: Seq<char>, n: int) -> Seq<int>
    decreases n,
{
    if n <= 0 {
        Seq::empty()
    } else {
        let s = matches_of(lib, pattern, n - 1);
        if glob(pattern, lib[n - 1].name@) { s.push(n - 1) } else { s }
    }
}

/// The masters that the first `n` patterns match, pattern by pattern.
pub open spec fn all_matches(lib: Seq<LibMaster>, patterns: Seq<String>, n: int) -> Seq<int>
    decreases n,
{
    if n <= 0 {
        Seq::empty()
    } else {
        all_matches(lib, patterns, n - 1) + matches_of(lib, patterns[n - 1]@, lib.len() as int)
    }
}

/// The first `n` patterns that match nothing.
pub open spec fn unmatched(lib: Seq<LibMaster>, patterns: Seq<String>, n: int) -> Seq<String>
    decreases n,
{
    if n <= 0 {
        Seq::empty()
    } else {
        let s = unmatched(lib, patterns, n - 1);
        if matches_of(lib, patterns[n - 1]@, lib.len() as int).len() == 0 { s.push(patterns[n - 1]) } else { s }
    }
}

/// The first `n` texts joined by spaces.
pub open spec fn joined(v: Seq<String>, n: int) -> Seq<char>
    decreases n,
{
    if n <= 0 {
        Seq::empty()
    } else if n == 1 {
        v[0]@
    } else {
        joined(v, n - 1) + seq![' '] + v[n - 1]@
    }
}

/// `out` are the listed masters as the fill reads them.
pub open spec fn are_read(lib: Seq<LibMaster>, ix: Seq<int>, out: Seq<FillerMaster>) -> bool {
    &&& out.len() == ix.len()
    &&& forall|k: int| 0 <= k < ix.len() ==> 0 <= #[trigger] ix[k] < lib.len() && is_read(lib[ix[k]], out[k])
}

fn join(v: &Vec<String>) -> (r: String)
    ensures
        r@ == joined(v@, v@.len() as int),
{
    let mut s = String::new();
    let mut k: usize = 0;
    assert(s@ =~= joined(v@, 0));
    while k < v.len()
        invariant
            k <= v@.len(),
            s@ == joined(v@, k as int),
        decreases v@.len() - k,
    {
        if k > 0 {
            s.append(" ");
            proof {
                reveal_strlit(" ");
                assert(" "@ =~= seq![' ']);
            }
        }
        s.append(v[k].as_str());
        k = k + 1;
        assert(s@ =~= joined(v@, k as int));
    }
    s
}

/// Per pattern, every master in library order whose name it matches; a master that two patterns
/// match is listed twice. Also the patterns that matched nothing. With patterns and no match at all,
/// an error.
pub fn get_masters_arg(lib: &Vec<LibMaster>, patterns: &Vec<String>) -> (r: Result<(Vec<FillerMaster>, Vec<String>), FillError>)
    ensures
        match r {
            Ok(p) => {
                &&& patterns@.len() == 0 || all_matches(lib@, patterns@, patterns@.len() as int).len() > 0
                &&& are_read(lib@, all_matches(lib@, patterns@, patterns@.len() as int), p.0@)
                &&& p.1@ == unmatched(lib@, patterns@, patterns@.len() as int)
            },
            Err(e) => {
                &&& patterns@.len() > 0 && all_matches(lib@, patterns@, patterns@.len() as int).len() == 0
                &&& e matches FillError::NoMasters(t) && t@ == joined(patterns@, patterns@.len() as int)
            },
        },
{
    let mut out: Vec<FillerMaster> = Vec::new();
    let mut missed: Vec<String> = Vec::new();
    let mut p: usize = 0;
    while p < patterns.len()
        invariant
            p <= patterns@.len(),
            are_read(lib@, all_matches(lib@, patterns@, p as int), out@),
            missed@ == unmatched(lib@, patterns@, p as int),
        decreases patterns@.len() - p,
    {
        let ghost base = all_matches(lib@, patterns@, p as int);
        let ghost pat = patterns@[p as int]@;
        let before: usize = out.len();
        let mut i: usize = 0;
        assert(base + matches_of(lib@, pat, 0) =~= base);
        while i < lib.len()
            invariant
                p < patterns@.len(),
                i <= lib@.len(),
                pat == patterns@[p as int]@,
                before == base.len(),
                out@.len() >= before,
                are_read(lib@, base + matches_of(lib@, pat, i as int), out@),
            decreases lib@.len() - i,
        {
            if tcl_string_match(patterns[p].as_str(), lib[i].name.as_str()) {
                let ghost o = out@;
                let ghost ix = base + matches_of(lib@, pat, i as int);
                let f = FillerMaster {
                    name: lib[i].name.clone(),
                    width: lib[i].width,
                    height: lib[i].height,
                    implant: master_implant(&lib[i].obstructions),
                };
                out.push(f);
                proof {
                    assert(base + matches_of(lib@, pat, i + 1) =~= ix.push(i as int));
                    assert forall|k: int| 0 <= k < ix.push(i as int).len() implies
                        0 <= #[trigger] ix.push(i as int)[k] < lib@.len() && is_read(lib@[ix.push(i as int)[k]], out@[k]) by {
                        if k < ix.len() {
                            assert(ix[k] == ix.push(i as int)[k]);
                            assert(out@[k] == o[k]);
                        }
                    }
                }
            }
            i = i + 1;
        }
        if out.len() == before {
            missed.push(patterns[p].clone());
        }
        p = p + 1;
    }
    if patterns.len() > 0 && out.len() == 0 {
        return Err(FillError::NoMasters(join(patterns)));
    }
    Ok((out, missed))
}

/// Whether the first master of this name is a pad or a block.
pub open spec fn cannot_fill(lib: Seq<LibMaster>, name: Seq<char>, i: int) -> bool
    decreases lib.len() - i,
{
    if i < 0 || i >= lib.len() {
        false
    } else if lib[i].name@ == name {
        lib[i].is_pad || lib[i].is_block
    } else {
        cannot_fill(lib, name, i + 1)
    }
}

/// The first `n` masters that can fill.
pub open spec fn fitting(lib: Seq<LibMaster>, masters: Seq<FillerMaster>, n: int) -> Seq<FillerMaster>
    decreases n,
{
    if n <= 0 {
        Seq::empty()
    } else {
        let s = fitting(lib, masters, n - 1);
        if cannot_fill(lib, masters[n - 1].name@, 0) { s } else { s.push(masters[n - 1]) }
    }
}

fn is_pad_or_block(lib: &Vec<LibMaster>, name: &str) -> (r: bool)
    ensures
        r == cannot_fill(lib@, name@, 0),
{
    let mut i: usize = 0;
    while i < lib.len()
        invariant
            i <= lib@.len(),
            cannot_fill(lib@, name@, i as int) == cannot_fill(lib@, name@, 0),
        decreases lib@.len() - i,
    {
        if same_text(lib[i].name.as_str(), name) {
            return lib[i].is_pad || lib[i].is_block;
        }
        i = i + 1;
    }
    false
}

fn copy_master(m: &FillerMaster) -> (r: FillerMaster)
    ensures
        r == *m,
{
    FillerMaster { name: m.name.clone(), width: m.width, height: m.height, implant: m.implant }
}

/// Pads and blocks cannot fill: the other masters.
pub fn filter_filler_masters(lib: &Vec<LibMaster>, masters: &Vec<FillerMaster>) -> (r: Vec<FillerMaster>)
    ensures
        r@ == fitting(lib@, masters@, masters@.len() as int),
{
    let mut out: Vec<FillerMaster> = Vec::new();
    let mut i: usize = 0;
    while i < masters.len()
        invariant
            i <= masters@.len(),
            out@ == fitting(lib@, masters@, i as int),
        decreases masters@.len() - i,
    {
        if !is_pad_or_block(lib, masters[i].name.as_str()) {
            out.push(copy_master(&masters[i]));
        }
        i = i + 1;
    }
    out
}

/// The order of implant layers: none first, then by number.
pub open spec fn implant_less(a: Option<i64>, b: Option<i64>) -> bool {
    match (a, b) {
        (None, None) => false,
        (None, Some(_)) => true,
        (Some(_), None) => false,
        (Some(x), Some(y)) => x < y,
    }
}

/// The positions among the first `n` masters of those with an implant, with their widths negated.
pub open spec fn keyed_of(masters: Seq<FillerMaster>, implant: Option<i64>, n: int) -> Seq<Keyed>
    decreases n,
{
    if n <= 0 {
        Seq::empty()
    } else {
        let s = keyed_of(masters, implant, n - 1);
        if masters[n - 1].implant == implant { s.push(Keyed { key: (-masters[n - 1].width) as i64, pos: (n - 1) as usize }) } else { s }
    }
}

/// `group` holds the masters with an implant, widest first, equal widths in their order.
pub open spec fn is_group(masters: Seq<FillerMaster>, implant: Option<i64>, group: Seq<FillerMaster>) -> bool {
    exists|ks: Seq<Keyed>| #[trigger] group_by(masters, implant, group, ks)
}

/// `group` holds the masters in the order of `ks`, the sorted positions of those with an implant.
pub open spec fn group_by(masters: Seq<FillerMaster>, implant: Option<i64>, group: Seq<FillerMaster>, ks: Seq<Keyed>) -> bool {
    &&& in_order(ks)
    &&& ks.to_multiset() == keyed_of(masters, implant, masters.len() as int).to_multiset()
    &&& group.len() == ks.len()
    &&& forall|k: int| 0 <= k < ks.len() ==> #[trigger] ks[k].pos < masters.len() && group[k] == masters[ks[k].pos as int]
}

/// The implants of the first `n` masters, in order without repetition.
pub open spec fn are_implants(masters: Seq<FillerMaster>, n: int, keys: Seq<Option<i64>>) -> bool {
    &&& forall|i: int, j: int| 0 <= i < j < keys.len() ==> implant_less(#[trigger] keys[i], #[trigger] keys[j])
    &&& forall|i: int| 0 <= i < n ==> keys.contains(#[trigger] masters[i].implant)
    &&& forall|k: int| 0 <= k < keys.len() ==> exists|i: int| 0 <= i < n && (#[trigger] masters[i]).implant == #[trigger] keys[k]
}

/// The implants of the groups.
pub open spec fn keys_of(groups: Seq<(Option<i64>, Vec<FillerMaster>)>) -> Seq<Option<i64>> {
    Seq::new(groups.len(), |k: int| groups[k].0)
}

/// `groups` are the masters by implant, each group widest first.
pub open spec fn is_split(masters: Seq<FillerMaster>, groups: Seq<(Option<i64>, Vec<FillerMaster>)>) -> bool {
    &&& are_implants(masters, masters.len() as int, keys_of(groups))
    &&& forall|k: int| 0 <= k < groups.len() ==> is_group(masters, (#[trigger] groups[k]).0, groups[k].1@)
}

proof fn lemma_keyed(masters: Seq<FillerMaster>, implant: Option<i64>, n: int)
    requires
        0 <= n <= masters.len(),
        masters.len() <= usize::MAX,
    ensures
        forall|k: int| 0 <= k < keyed_of(masters, implant, n).len() ==> {
            let e = #[trigger] keyed_of(masters, implant, n)[k];
            e.pos < n && masters[e.pos as int].implant == implant && e.key == -masters[e.pos as int].width
        },
    decreases n,
{
    if n > 0 {
        lemma_keyed(masters, implant, n - 1);
    }
}

fn group_masters(masters: &Vec<FillerMaster>, implant: Option<i64>) -> (r: Vec<FillerMaster>)
    ensures
        is_group(masters@, implant, r@),
{
    let mut keys: Vec<Keyed> = Vec::new();
    let mut i: usize = 0;
    while i < masters.len()
        invariant
            i <= masters@.len(),
            keys@ == keyed_of(masters@, implant, i as int),
        decreases masters@.len() - i,
    {
        if same_implant(masters[i].implant, implant) {
            keys.push(Keyed { key: -(masters[i].width as i64), pos: i });
        }
        i = i + 1;
    }
    let ks = sorted(&keys);
    proof {
        lemma_keyed(masters@, implant, masters@.len() as int);
        let p = |e: Keyed| e.pos < masters@.len();
        assert forall|k: int| 0 <= k < keys@.len() implies p(#[trigger] keys@[k]) by {
            assert(keyed_of(masters@, implant, masters@.len() as int)[k] == keys@[k]);
        }
        crate::sort::lemma_rearranged(keys@, ks@, p);
        assert forall|k: int| 0 <= k < ks@.len() implies (#[trigger] ks@[k]).pos < masters@.len() by {
            assert(p(ks@[k]));
        }
    }
    let mut out: Vec<FillerMaster> = Vec::new();
    let mut k: usize = 0;
    while k < ks.len()
        invariant
            k <= ks@.len(),
            out@.len() == k,
            forall|j: int| 0 <= j < ks@.len() ==> (#[trigger] ks@[j]).pos < masters@.len(),
            forall|j: int| 0 <= j < k ==> #[trigger] out@[j] == masters@[ks@[j].pos as int],
        decreases ks@.len() - k,
    {
        out.push(copy_master(&masters[ks[k].pos]));
        k = k + 1;
    }
    assert(group_by(masters@, implant, out@, ks@));
    out
}

fn same_implant(a: Option<i64>, b: Option<i64>) -> (r: bool)
    ensures
        r == (a == b),
{
    match (a, b) {
        (None, None) => true,
        (Some(x), Some(y)) => x == y,
        _ => false,
    }
}

fn implant_before(a: Option<i64>, b: Option<i64>) -> (r: bool)
    ensures
        r == implant_less(a, b),
{
    match (a, b) {
        (None, None) => false,
        (None, Some(_)) => true,
        (Some(_), None) => false,
        (Some(x), Some(y)) => x < y,
    }
}

/// The implants of the masters, in order.
fn implants_of(masters: &Vec<FillerMaster>) -> (r: Vec<Option<i64>>)
    ensures
        are_implants(masters@, masters@.len() as int, r@),
{
    let mut keys: Vec<Option<i64>> = Vec::new();
    let mut i: usize = 0;
    while i < masters.len()
        invariant
            i <= masters@.len(),
            are_implants(masters@, i as int, keys@),
        decreases masters@.len() - i,
    {
        let ghost k0 = keys@;
        let v = masters[i].implant;
        let mut at: usize = 0;
        while at < keys.len() && implant_before(keys[at], v)
            invariant
                at <= keys@.len(),
                forall|j: int| 0 <= j < at ==> implant_less(#[trigger] keys@[j], v),
            decreases keys@.len() - at,
        {
            at = at + 1;
        }
        if at == keys.len() || !same_implant(keys[at], v) {
            keys.insert(at, v);
            proof {
                let ks = keys@;
                assert(ks[at as int] == v);
                assert forall|a: int, b: int| 0 <= a < b < ks.len() implies implant_less(#[trigger] ks[a], #[trigger] ks[b]) by {
                    let p = if a < at { a } else { a - 1 };
                    let q = if b < at { b } else { b - 1 };
                    if a != at { assert(ks[a] == k0[p]); }
                    if b != at { assert(ks[b] == k0[q]); }
                    if a != at && b != at { assert(implant_less(k0[p], k0[q])); }
                    if a == at {
                        if q > at { assert(implant_less(k0[at as int], k0[q])); }
                    }
                }
                assert forall|a: int| 0 <= a < i + 1 implies ks.contains(#[trigger] masters@[a].implant) by {
                    if a < i {
                        assert(k0.contains(masters@[a].implant));
                        let p = choose|p: int| 0 <= p < k0.len() && k0[p] == masters@[a].implant;
                        assert(ks[if p < at { p } else { p + 1 }] == k0[p]);
                    }
                }
                assert forall|k: int| 0 <= k < ks.len() implies exists|a: int| 0 <= a < i + 1 && (#[trigger] masters@[a]).implant == #[trigger] ks[k] by {
                    if k == at {
                        assert(masters@[i as int].implant == ks[k]);
                    } else {
                        let p = if k < at { k } else { k - 1 };
                        assert(ks[k] == k0[p]);
                        let a = choose|a: int| 0 <= a < i && (#[trigger] masters@[a]).implant == k0[p];
                        assert(masters@[a].implant == ks[k]);
                    }
                }
            }
        } else {
            proof {
                assert(k0.contains(masters@[i as int].implant));
                assert forall|k: int| 0 <= k < k0.len() implies exists|a: int| 0 <= a < i + 1 && (#[trigger] masters@[a]).implant == #[trigger] k0[k] by {
                    let a = choose|a: int| 0 <= a < i && (#[trigger] masters@[a]).implant == k0[k];
                    assert(masters@[a].implant == k0[k]);
                }
            }
        }
        i = i + 1;
    }
    keys
}

/// The masters by implant, each group widest first; masters of equal width keep their order.
pub fn split_by_implant(masters: &Vec<FillerMaster>) -> (r: ByImplant)
    ensures
        is_split(masters@, r@),
{
    let keys = implants_of(masters);
    let mut out: ByImplant = Vec::new();
    let mut k: usize = 0;
    while k < keys.len()
        invariant
            k <= keys@.len(),
            out@.len() == k,
            forall|j: int| 0 <= j < k ==> (#[trigger] out@[j]).0 == keys@[j] && is_group(masters@, out@[j].0, out@[j].1@),
        decreases keys@.len() - k,
    {
        let g = group_masters(masters, keys[k]);
        out.push((keys[k], g));
        k = k + 1;
    }
    assert(keys_of(out@) =~= keys@);
    out
}

// ── which instance holds each square ─────────────────────────────────────────────────────────

/// A square's holder: the instance, and its master's implant.
pub type Holder = (String, Option<i64>);

/// An instance as the fill sees it.
#[derive(Debug)]
pub struct FillInst {
    pub name: String,
    /// Its placed box, absolute.
    pub bbox: Option<Box4>,
    pub orient: String,
    pub origin: (i32, i32),
    /// Its master's obstructions.
    pub obstructions: Vec<Obstruction>,
}

/// A point turned by an orientation about the origin.
pub open spec fn turned(orient: Seq<char>, x: int, y: int) -> (int, int) {
    if orient == "R90"@ {
        (-y, x)
    } else if orient == "R180"@ {
        (-x, -y)
    } else if orient == "R270"@ {
        (y, -x)
    } else if orient == "MY"@ {
        (-x, y)
    } else if orient == "MYR90"@ {
        (-y, -x)
    } else if orient == "MX"@ {
        (x, -y)
    } else if orient == "MXR90"@ {
        (y, x)
    } else {
        (x, y)
    }
}

/// The box that a master's box becomes in an instance: turned about the origin, then moved.
pub open spec fn moved(orient: Seq<char>, origin: (i32, i32), r: Box4) -> (int, int, int, int) {
    let a = turned(orient, r.0 as int, r.1 as int);
    let b = turned(orient, r.2 as int, r.3 as int);
    (
        crate::arith::imin(a.0, b.0) + origin.0,
        crate::arith::imin(a.1, b.1) + origin.1,
        crate::arith::imax(a.0, b.0) + origin.0,
        crate::arith::imax(a.1, b.1) + origin.1,
    )
}

/// Whether a number is a coordinate.
pub open spec fn is_coord(v: int) -> bool {
    i32::MIN <= v <= i32::MAX
}

fn turn(orient: &str, x: i64, y: i64) -> (r: (i64, i64))
    requires
        is_coord(x as int),
        is_coord(y as int),
    ensures
        (r.0 as int, r.1 as int) == turned(orient@, x as int, y as int),
        -0x8000_0000 <= r.0 <= 0x8000_0000,
        -0x8000_0000 <= r.1 <= 0x8000_0000,
{
    if same_text(orient, "R90") {
        (-y, x)
    } else if same_text(orient, "R180") {
        (-x, -y)
    } else if same_text(orient, "R270") {
        (y, -x)
    } else if same_text(orient, "MY") {
        (-x, y)
    } else if same_text(orient, "MYR90") {
        (-y, -x)
    } else if same_text(orient, "MX") {
        (x, -y)
    } else if same_text(orient, "MXR90") {
        (y, x)
    } else {
        (x, y)
    }
}

/// The box that a master's box becomes in an instance.
pub fn transform(orient: &str, origin: (i32, i32), r: Box4) -> (t: (i64, i64, i64, i64))
    ensures
        (t.0 as int, t.1 as int, t.2 as int, t.3 as int) == moved(orient@, origin, r),
        -0x1_0000_0000 <= t.0 <= t.2 <= 0x1_0000_0000,
        -0x1_0000_0000 <= t.1 <= t.3 <= 0x1_0000_0000,
{
    let a = turn(orient, r.0 as i64, r.1 as i64);
    let b = turn(orient, r.2 as i64, r.3 as i64);
    (
        min64(a.0, b.0) + origin.0 as i64,
        min64(a.1, b.1) + origin.1 as i64,
        max64(a.0, b.0) + origin.0 as i64,
        max64(a.1, b.1) + origin.1 as i64,
    )
}

/// Whether some obstruction is on an overlap layer.
pub open spec fn has_overlap(obs: Seq<Obstruction>) -> bool {
    exists|k: int| 0 <= k < obs.len() && (#[trigger] obs[k]).layer_type@ == "OVERLAP"@
}

/// The squares an obstruction of an instance lies on.
pub open spec fn shape_squares(i: FillInst, g: Grid, k: int) -> (int, int, int, int) {
    let m = moved(i.orient@, i.origin, i.obstructions@[k].rect);
    g.touch(m.0 - g.core.0, m.1 - g.core.1, m.2 - g.core.0, m.3 - g.core.1)
}

/// The squares an instance's box lies on.
pub open spec fn box_squares(i: FillInst, g: Grid) -> (int, int, int, int) {
    let b = i.bbox->Some_0;
    g.cover(b.0 - g.core.0, b.1 - g.core.1, b.2 - b.0, b.3 - b.1)
}

/// Whether one of an instance's first `n` obstructions is an overlap that lies on a square.
pub open spec fn shape_holds(i: FillInst, g: Grid, n: int, x: int, y: int) -> bool {
    exists|k: int| 0 <= k < n && (#[trigger] i.obstructions@[k]).layer_type@ == "OVERLAP"@ && in_box(shape_squares(i, g, k), x, y)
}

/// Whether an instance holds a square: by its overlap obstructions where it has any, by its box
/// otherwise.
pub open spec fn holds(i: FillInst, g: Grid, x: int, y: int) -> bool {
    if has_overlap(i.obstructions@) {
        shape_holds(i, g, i.obstructions@.len() as int, x, y)
    } else {
        i.bbox is Some && in_box(box_squares(i, g), x, y)
    }
}

/// The last of the first `n` instances that holds a square.
pub open spec fn holder_upto(insts: Seq<FillInst>, g: Grid, n: int, x: int, y: int) -> Option<int>
    decreases n,
{
    if n <= 0 {
        None
    } else if holds(insts[n - 1], g, x, y) {
        Some(n - 1)
    } else {
        holder_upto(insts, g, n - 1, x, y)
    }
}

/// `c` names an instance, or none.
pub open spec fn names_holder(c: Option<Holder>, insts: Seq<FillInst>, who: Option<int>) -> bool {
    match who {
        None => c is None,
        Some(i) => c matches Some(h) && h.0 == insts[i].name && h.1 == implant_of(insts[i].obstructions@, 0),
    }
}

/// An instance's extent relative to the core is a coordinate.
pub open spec fn inst_fits(i: FillInst, g: Grid) -> bool {
    &&& i.bbox matches Some(b) ==> is_coord(b.0 - g.core.0) && is_coord(b.1 - g.core.1) && is_coord(b.2 - b.0) && is_coord(b.3 - b.1)
    &&& forall|k: int| 0 <= k < i.obstructions@.len() && (#[trigger] i.obstructions@[k]).layer_type@ == "OVERLAP"@ ==> {
        let m = moved(i.orient@, i.origin, i.obstructions@[k].rect);
        is_coord(m.0 - g.core.0) && is_coord(m.1 - g.core.1) && is_coord(m.2 - g.core.0) && is_coord(m.3 - g.core.1)
    }
}

/// One cell per square of a grid.
pub open spec fn has_shape(cells: Seq<Vec<Option<Holder>>>, g: Grid) -> bool {
    &&& cells.len() == g.row_count
    &&& forall|y: int| 0 <= y < cells.len() ==> (#[trigger] cells[y])@.len() == g.row_site_count
}

/// `cells` names, on every square, the last instance that holds it.
pub open spec fn shows_holders(cells: Seq<Vec<Option<Holder>>>, insts: Seq<FillInst>, g: Grid) -> bool {
    &&& has_shape(cells, g)
    &&& forall|y: int, x: int| 0 <= y < g.row_count && 0 <= x < g.row_site_count ==>
        names_holder(#[trigger] cells[y]@[x], insts, holder_upto(insts, g, insts.len() as int, x, y))
}

/// Paint a box of squares with a holder.
fn paint(cells: &mut Vec<Vec<Option<Holder>>>, g: &Grid, b: (i64, i64, i64, i64), name: &String, implant: Option<i64>)
    requires
        g.wf(),
        has_shape(old(cells)@, *g),
    ensures
        has_shape(final(cells)@, *g),
        forall|y: int, x: int| 0 <= y < g.row_count && 0 <= x < g.row_site_count ==>
            if in_box((b.0 as int, b.1 as int, b.2 as int, b.3 as int), x, y) {
                #[trigger] final(cells)@[y]@[x] == Some((*name, implant))
            } else {
                final(cells)@[y]@[x] == old(cells)@[y]@[x]
            },
{
    let ghost c0 = cells@;
    let ghost bx = (b.0 as int, b.1 as int, b.2 as int, b.3 as int);
    let x0: i64 = max64(b.0, 0);
    let x1: i64 = min64(b.2, g.row_site_count as i64);
    let y0: i64 = max64(b.1, 0);
    let y1: i64 = min64(b.3, g.row_count as i64);
    let mut y: i64 = y0;
    while y < y1
        invariant
            g.wf(),
            has_shape(cells@, *g),
            0 <= y0 <= y,
            y <= y1 || y == y0,
            y1 <= g.row_count,
            0 <= x0,
            x1 <= g.row_site_count,
            bx == (b.0 as int, b.1 as int, b.2 as int, b.3 as int),
            x0 == if b.0 < 0 { 0 } else { b.0 },
            x1 == if b.2 < g.row_site_count { b.2 as int } else { g.row_site_count as int },
            y0 == if b.1 < 0 { 0 } else { b.1 },
            y1 == if b.3 < g.row_count { b.3 as int } else { g.row_count as int },
            forall|v: int, u: int| 0 <= v < g.row_count && 0 <= u < g.row_site_count ==>
                if v < y && in_box(bx, u, v) {
                    #[trigger] cells@[v]@[u] == Some((*name, implant))
                } else {
                    cells@[v]@[u] == c0[v]@[u]
                },
        decreases y1 - y,
    {
        let ghost c1 = cells@;
        let mut x: i64 = x0;
        while x < x1
            invariant
                g.wf(),
                has_shape(cells@, *g),
                0 <= y0 <= y < y1 <= g.row_count,
                0 <= x0 <= x,
                x <= x1 || x == x0,
                x1 <= g.row_site_count,
                forall|v: int, u: int| 0 <= v < g.row_count && 0 <= u < g.row_site_count ==>
                    if v == y && x0 <= u < x {
                        #[trigger] cells@[v]@[u] == Some((*name, implant))
                    } else {
                        cells@[v]@[u] == c1[v]@[u]
                    },
            decreases x1 - x,
        {
            let yy: usize = y as usize;
            let xx: usize = x as usize;
            cells[yy][xx] = Some((name.clone(), implant));
            x = x + 1;
        }
        y = y + 1;
    }
}

/// Paint the squares of one instance.
fn paint_inst(cells: &mut Vec<Vec<Option<Holder>>>, g: &Grid, i: &FillInst)
    requires
        g.wf(),
        has_shape(old(cells)@, *g),
        inst_fits(*i, *g),
    ensures
        has_shape(final(cells)@, *g),
        forall|y: int, x: int| 0 <= y < g.row_count && 0 <= x < g.row_site_count ==>
            if holds(*i, *g, x, y) {
                #[trigger] final(cells)@[y]@[x] == Some((i.name, implant_of(i.obstructions@, 0)))
            } else {
                final(cells)@[y]@[x] == old(cells)@[y]@[x]
            },
{
    let implant = master_implant(&i.obstructions);
    let ghost c0 = cells@;
    let mut any: bool = false;
    let mut k: usize = 0;
    while k < i.obstructions.len()
        invariant
            g.wf(),
            has_shape(cells@, *g),
            inst_fits(*i, *g),
            implant == implant_of(i.obstructions@, 0),
            k <= i.obstructions@.len(),
            any == exists|j: int| 0 <= j < k && (#[trigger] i.obstructions@[j]).layer_type@ == "OVERLAP"@,
            !any ==> cells@ == c0,
            forall|y: int, x: int| 0 <= y < g.row_count && 0 <= x < g.row_site_count ==>
                if shape_holds(*i, *g, k as int, x, y) {
                    #[trigger] cells@[y]@[x] == Some((i.name, implant))
                } else {
                    cells@[y]@[x] == c0[y]@[x]
                },
        decreases i.obstructions@.len() - k,
    {
        let ghost c1 = cells@;
        if same_text(i.obstructions[k].layer_type.as_str(), "OVERLAP") {
            any = true;
            let m = transform(i.orient.as_str(), i.origin, i.obstructions[k].rect);
            let b = g.covering_rect((m.0 - g.core.0 as i64) as i32, (m.1 - g.core.1 as i64) as i32, (m.2 - g.core.0 as i64) as i32, (m.3 - g.core.1 as i64) as i32);
            paint(cells, g, b, &i.name, implant);
            proof {
                assert((b.0 as int, b.1 as int, b.2 as int, b.3 as int) == shape_squares(*i, *g, k as int));
                assert forall|y: int, x: int| 0 <= y < g.row_count && 0 <= x < g.row_site_count implies
                    if shape_holds(*i, *g, k + 1, x, y) {
                        #[trigger] cells@[y]@[x] == Some((i.name, implant))
                    } else {
                        cells@[y]@[x] == c0[y]@[x]
                    } by {
                    let was = c1[y]@[x];
                    if in_box(shape_squares(*i, *g, k as int), x, y) {
                        assert(i.obstructions@[k as int].layer_type@ == "OVERLAP"@);
                    } else if shape_holds(*i, *g, k as int, x, y) {
                    } else if shape_holds(*i, *g, k + 1, x, y) {
                        let j = choose|j: int| 0 <= j < k + 1 && (#[trigger] i.obstructions@[j]).layer_type@ == "OVERLAP"@ && in_box(shape_squares(*i, *g, j), x, y);
                        assert(j < k);
                    }
                }
            }
        } else {
            proof {
                assert forall|y: int, x: int| 0 <= y < g.row_count && 0 <= x < g.row_site_count implies
                    if shape_holds(*i, *g, k + 1, x, y) {
                        #[trigger] cells@[y]@[x] == Some((i.name, implant))
                    } else {
                        cells@[y]@[x] == c0[y]@[x]
                    } by {
                    if shape_holds(*i, *g, k + 1, x, y) {
                        let j = choose|j: int| 0 <= j < k + 1 && (#[trigger] i.obstructions@[j]).layer_type@ == "OVERLAP"@ && in_box(shape_squares(*i, *g, j), x, y);
                        assert(j < k);
                        assert(shape_holds(*i, *g, k as int, x, y));
                    }
                }
            }
        }
        k = k + 1;
    }
    assert(any == has_overlap(i.obstructions@));
    if !any {
        if let Some(b) = i.bbox {
            let c = g.covering(b.0 - g.core.0, b.1 - g.core.1, b.2 - b.0, b.3 - b.1);
            paint(cells, g, c, &i.name, implant);
            assert((c.0 as int, c.1 as int, c.2 as int, c.3 as int) == box_squares(*i, *g));
        }
    }
}

/// Which instance holds each square, the last of several, by row and then by site.
pub fn set_grid_cells(insts: &Vec<FillInst>, grid: &Grid) -> (cells: Vec<Vec<Option<Holder>>>)
    requires
        grid.wf(),
        forall|k: int| 0 <= k < insts@.len() ==> inst_fits(#[trigger] insts@[k], *grid),
    ensures
        shows_holders(cells@, insts@, *grid),
{
    let mut cells: Vec<Vec<Option<Holder>>> = Vec::new();
    let mut y: usize = 0;
    while y < grid.row_count
        invariant
            y <= grid.row_count,
            cells@.len() == y,
            forall|v: int| 0 <= v < y ==> (#[trigger] cells@[v])@.len() == grid.row_site_count,
            forall|v: int, u: int| 0 <= v < y && 0 <= u < grid.row_site_count ==> (#[trigger] cells@[v]@[u]) is None,
        decreases grid.row_count - y,
    {
        let mut line: Vec<Option<Holder>> = Vec::new();
        let mut x: usize = 0;
        while x < grid.row_site_count
            invariant
                x <= grid.row_site_count,
                line@.len() == x,
                forall|u: int| 0 <= u < x ==> (#[trigger] line@[u]) is None,
            decreases grid.row_site_count - x,
        {
            line.push(None);
            x = x + 1;
        }
        cells.push(line);
        y = y + 1;
    }
    let mut k: usize = 0;
    while k < insts.len()
        invariant
            grid.wf(),
            k <= insts@.len(),
            forall|j: int| 0 <= j < insts@.len() ==> inst_fits(#[trigger] insts@[j], *grid),
            has_shape(cells@, *grid),
            forall|v: int, u: int| 0 <= v < grid.row_count && 0 <= u < grid.row_site_count ==>
                names_holder(#[trigger] cells@[v]@[u], insts@, holder_upto(insts@, *grid, k as int, u, v)),
        decreases insts@.len() - k,
    {
        let ghost c1 = cells@;
        assert(inst_fits(insts@[k as int], *grid));
        paint_inst(&mut cells, grid, &insts[k]);
        proof {
            assert forall|v: int, u: int| 0 <= v < grid.row_count && 0 <= u < grid.row_site_count implies
                names_holder(#[trigger] cells@[v]@[u], insts@, holder_upto(insts@, *grid, k + 1, u, v)) by {
                let was = c1[v]@[u];
                assert(names_holder(was, insts@, holder_upto(insts@, *grid, k as int, u, v)));
            }
        }
        k = k + 1;
    }
    cells
}

// ── rows ─────────────────────────────────────────────────────────────────────────────────────

/// A filler as texts and numbers.
pub ghost struct Fill {
    pub name: Seq<char>,
    pub master: Seq<char>,
    pub x: int,
    pub y: int,
    pub orient: Seq<char>,
}

/// What stops the fill, as texts and numbers.
pub ghost enum Fault {
    NoMasters(Seq<char>),
    NoFillersForImplant(int),
    CannotFill { sites: int, width: int, height: int, x: int, y: int, left: Seq<char>, right: Seq<char> },
    NoSite(int, int),
    Grid(GridError),
}

impl Filler {
    pub open spec fn view(&self) -> Fill {
        Fill { name: self.name@, master: self.master@, x: self.x as int, y: self.y as int, orient: self.orient@ }
    }
}

impl FillError {
    pub open spec fn view(&self) -> Fault {
        match *self {
            FillError::NoMasters(t) => Fault::NoMasters(t@),
            FillError::NoFillersForImplant(l) => Fault::NoFillersForImplant(l as int),
            FillError::CannotFill(g) => Fault::CannotFill {
                sites: g.sites as int,
                width: g.width as int,
                height: g.height as int,
                x: g.x as int,
                y: g.y as int,
                left: g.left@,
                right: g.right@,
            },
            FillError::NoSite(r, c) => Fault::NoSite(r as int, c as int),
            FillError::Grid(e) => Fault::Grid(e),
        }
    }
}

/// A list of fillers as texts and numbers.
pub open spec fn fills(v: Seq<Filler>) -> Seq<Fill> {
    Seq::new(v.len(), |k: int| v[k]@)
}

/// One row to fill: its number, the prefix of the names, the masters, and what holds each square.
pub ghost struct Row {
    pub row: int,
    pub prefix: Seq<char>,
    pub groups: Seq<(Option<i64>, Vec<FillerMaster>)>,
    pub grid: Grid,
    pub cells: Seq<Vec<Option<Holder>>>,
    pub heights: Seq<(String, i32)>,
}

impl Row {
    /// Whether a square is valid and holds no cell.
    pub open spec fn empty_at(&self, x: int) -> bool {
        self.cells[self.row]@[x] is None && self.grid.px(x, self.row).is_valid
    }

    /// The end of the run of empty squares from `j` on.
    pub open spec fn run_end(&self, j: int) -> int
        decreases self.grid.row_site_count - j,
    {
        if j >= self.grid.row_site_count || !self.empty_at(j) { j } else { self.run_end(j + 1) }
    }

    /// The implant of the cell to the left of a run, at column 0 of the cell to its right; that of
    /// the first group where there is no cell or no implant.
    pub open spec fn implant_at(&self, j: int, k: int) -> Option<i64> {
        let beside = if j > 0 {
            self.cells[self.row]@[j - 1]
        } else if k < self.grid.row_site_count {
            self.cells[self.row]@[k]
        } else {
            None
        };
        match beside {
            Some(h) => if h.1 is Some { h.1 } else { self.groups[0].0 },
            None => self.groups[0].0,
        }
    }

    /// The first group of an implant from number `i` on.
    pub open spec fn group_of(&self, implant: Option<i64>, i: int) -> Option<int>
        decreases self.groups.len() - i,
    {
        if i < 0 || i >= self.groups.len() {
            None
        } else if self.groups[i].0 == implant {
            Some(i)
        } else {
            self.group_of(implant, i + 1)
        }
    }

    /// What stands at a column, for a message.
    pub open spec fn inst_name(&self, col: int) -> Seq<char> {
        if col < 0 {
            "core_left"@
        } else if col >= self.grid.row_site_count {
            "core_right"@
        } else {
            match self.cells[self.row]@[col] {
                Some(h) => h.0@,
                None => "?"@,
            }
        }
    }

    /// The absolute X of a column.
    pub open spec fn x_of(&self, col: int) -> int {
        self.grid.core.0 + col * self.grid.site_width
    }

    /// The absolute Y of the row.
    pub open spec fn y_of(&self) -> int {
        self.grid.core.1 + self.grid.row_y@[self.row]
    }

    /// The fillers of a list of masters from column `at` on, and the names taken after.
    pub open spec fn laid(&self, group: Seq<FillerMaster>, list: Seq<usize>, at: int, orient: Seq<char>, nm: Names) -> (Seq<Fill>, Names)
        decreases list.len(),
    {
        if list.len() == 0 {
            (Seq::empty(), nm)
        } else {
            let m = group[list[0] as int];
            let n = made(nm, self.prefix + decimal(self.row as nat) + seq!['_'] + decimal(at as nat));
            let f = Fill { name: n.0, master: m.name@, x: self.x_of(at), y: self.y_of(), orient };
            let rest = self.laid(group, list.skip(1), at + sites_of(m, self.grid.site_width as int), orient, n.1);
            (seq![f] + rest.0, rest.1)
        }
    }

    /// How the run from `j` to `k` is filled, and the names taken after.
    pub open spec fn run_filled(&self, j: int, k: int, nm: Names) -> (Result<Seq<Fill>, Fault>, Names) {
        match self.grid.shortest(j, self.row, self.heights) {
            None => (Err(Fault::NoSite(self.row, j)), nm),
            Some(s) => {
                let h = height_of(self.heights, self.grid.row_sites@[self.row]@[s].2@);
                let implant = self.implant_at(j, k);
                match self.group_of(implant, 0) {
                    None => (Err(Fault::NoFillersForImplant(match implant { Some(l) => l as int, None => -1 })), nm),
                    Some(g) => {
                        let group = self.groups[g].1@;
                        let list = gap_fill(group, k - j, h, self.grid.site_width as int);
                        if list.len() == 0 {
                            (Err(Fault::CannotFill {
                                sites: k - j,
                                width: (k - j) * self.grid.site_width,
                                height: h,
                                x: self.x_of(j),
                                y: self.y_of(),
                                left: self.inst_name(j - 1),
                                right: self.inst_name(k + 1),
                            }), nm)
                        } else {
                            let l = self.laid(group, list, j, self.grid.row_orient@[self.row]@, nm);
                            (Ok(l.0), l.1)
                        }
                    },
                }
            },
        }
    }

    /// How the columns from `j` on are filled, run by run, and the names taken after.
    pub open spec fn filled_from(&self, j: int, nm: Names) -> (Result<Seq<Fill>, Fault>, Names)
        decreases self.grid.row_site_count - j,
    {
        if j >= self.grid.row_site_count {
            (Ok(Seq::empty()), nm)
        } else if !self.empty_at(j) {
            self.filled_from(j + 1, nm)
        } else {
            let k = self.run_end(j);
            let head = self.run_filled(j, k, nm);
            match head.0 {
                Err(e) => (Err(e), head.1),
                Ok(fs) => if j < k <= self.grid.row_site_count {
                    let rest = self.filled_from(k, head.1);
                    match rest.0 {
                        Err(e) => (Err(e), rest.1),
                        Ok(gs) => (Ok(fs + gs), rest.1),
                    }
                } else {
                    (Ok(fs), head.1)
                },
            }
        }
    }

    /// How the row is filled.
    pub open spec fn fill(&self, nm: Names) -> (Result<Seq<Fill>, Fault>, Names) {
        if self.groups.len() == 0 {
            (Err(Fault::NoMasters(Seq::empty())), nm)
        } else {
            self.filled_from(0, nm)
        }
    }

    /// The row lies in the grid, its squares have holders, and its places have absolute coordinates.
    pub open spec fn wf(&self) -> bool {
        &&& self.grid.wf()
        &&& 0 <= self.row < self.grid.row_count
        &&& has_shape(self.cells, self.grid)
        &&& is_coord(self.grid.core.0 + self.grid.row_site_count * self.grid.site_width)
        &&& is_coord(self.y_of())
    }

    proof fn lemma_x(&self, col: int)
        requires
            self.wf(),
            0 <= col <= self.grid.row_site_count,
        ensures
            0 <= col * self.grid.site_width <= i32::MAX,
            is_coord(self.x_of(col)),
    {
        let (a, n, sw) = (col, self.grid.row_site_count as int, self.grid.site_width as int);
        assert(0 <= a * sw <= n * sw) by (nonlinear_arith)
            requires 0 <= a <= n, sw > 0;
    }

    proof fn lemma_run_end(&self, j: int)
        requires
            0 <= j <= self.grid.row_site_count,
        ensures
            j <= self.run_end(j) <= self.grid.row_site_count,
        decreases self.grid.row_site_count - j,
    {
        if j < self.grid.row_site_count && self.empty_at(j) {
            self.lemma_run_end(j + 1);
        }
    }
}

/// What stands at a column: `core_left` left of the row, `core_right` past it, `?` on an empty square.
fn grid_inst_name(cells: &Vec<Vec<Option<Holder>>>, row: usize, col: i64, n: usize, Ghost(r): Ghost<Row>) -> (s: String)
    requires
        r.wf(),
        r.row == row,
        r.cells == cells@,
        n == r.grid.row_site_count,
        col <= i32::MAX as int + 1,
    ensures
        s@ == r.inst_name(col as int),
{
    if col < 0 {
        return "core_left".to_owned();
    }
    if col >= n as i64 {
        return "core_right".to_owned();
    }
    match &cells[row][col as usize] {
        Some(h) => h.0.clone(),
        None => "?".to_owned(),
    }
}

fn filler_name(prefix: &str, row: usize, at: usize) -> (r: String)
    ensures
        r@ == prefix@ + decimal(row as nat) + seq!['_'] + decimal(at as nat),
{
    let mut s = prefix.to_owned();
    append_decimal(&mut s, row as u128);
    s.append("_");
    append_decimal(&mut s, at as u128);
    proof {
        reveal_strlit("_");
        assert("_"@ =~= seq!['_']);
        assert(s@ =~= prefix@ + decimal(row as nat) + seq!['_'] + decimal(at as nat));
    }
    s
}

proof fn lemma_filled_bounds(group: Seq<FillerMaster>, s: Seq<usize>, row_height: int, sw: int)
    requires
        is_filling(group, s, row_height, sw),
    ensures
        filled(group, s, sw) >= s.len(),
    decreases s.len(),
{
    if s.len() > 0 {
        assert(s[0] < group.len());
        assert forall|k: int| 0 <= k < s.skip(1).len() implies (#[trigger] s.skip(1)[k]) < group.len() && group[s.skip(1)[k] as int].height == row_height
            && sites_of(group[s.skip(1)[k] as int], sw) > 0 by {
            assert(s.skip(1)[k] == s[k + 1]);
        }
        assert forall|k: int| 0 <= k < s.skip(1).len() - 1 implies (#[trigger] s.skip(1)[k]) <= s.skip(1)[k + 1] by {
            assert(s[k + 1] <= s[k + 1 + 1]);
        }
        lemma_filled_bounds(group, s.skip(1), row_height, sw);
    }
}

proof fn lemma_is_filling_tail(group: Seq<FillerMaster>, s: Seq<usize>, i: int, row_height: int, sw: int)
    requires
        is_filling(group, s, row_height, sw),
        0 <= i <= s.len(),
    ensures
        is_filling(group, s.skip(i), row_height, sw),
{
    let t = s.skip(i);
    assert forall|k: int| 0 <= k < t.len() implies (#[trigger] t[k]) < group.len() && group[t[k] as int].height == row_height
        && sites_of(group[t[k] as int], sw) > 0 by {
        assert(t[k] == s[k + i]);
    }
    assert forall|k: int| 0 <= k < t.len() - 1 implies (#[trigger] t[k]) <= t[k + 1] by {
        assert(t[k] == s[k + i]);
        assert(s[k + i] <= s[k + i + 1]);
    }
}

/// Lay a list of masters from a column on.
fn lay(out: &mut Vec<Filler>, prefix: &str, row: usize, grid: &Grid, group: &Vec<FillerMaster>, list: &Vec<usize>, start: usize,
    orient: &String, names: &mut UniqueNames, Ghost(r): Ghost<Row>, Ghost(h): Ghost<int>)
    requires
        r.wf(),
        r.row == row,
        r.grid == *grid,
        r.prefix == prefix@,
        old(names).wf(),
        is_filling(group@, list@, h, grid.site_width as int),
        start + filled(group@, list@, grid.site_width as int) <= grid.row_site_count,
        old(names).taken@.len() + list@.len() + 3 < i32::MAX,
    ensures
        final(names).wf(),
        final(names).taken@.len() == old(names).taken@.len() + list@.len(),
        ({
            let l = r.laid(group@, list@, start as int, orient@, old(names)@);
            fills(final(out)@) == fills(old(out)@) + l.0 && final(names)@ == l.1
        }),
{
    let ghost sw = grid.site_width as int;
    let ghost all = r.laid(group@, list@, start as int, orient@, names@);
    let ghost o0 = fills(out@);
    let ghost t0 = names.taken@.len();
    let mut at: usize = start;
    let mut i: usize = 0;
    assert(list@.skip(0) =~= list@);
    assert(o0 + all.0 == fills(out@) + all.0);
    while i < list.len()
        invariant
            r.wf(),
            r.row == row,
            r.grid == *grid,
            r.prefix == prefix@,
            names.wf(),
            sw == grid.site_width,
            i <= list@.len(),
            is_filling(group@, list@, h, sw),
            at + filled(group@, list@.skip(i as int), sw) <= grid.row_site_count,
            names.taken@.len() == t0 + i,
            t0 + list@.len() + 3 < i32::MAX,
            fills(out@) + r.laid(group@, list@.skip(i as int), at as int, orient@, names@).0 == o0 + all.0,
            r.laid(group@, list@.skip(i as int), at as int, orient@, names@).1 == all.1,
        decreases list@.len() - i,
    {
        let ghost rest = list@.skip(i as int);
        let ghost o1 = fills(out@);
        let ghost nm = names@;
        let ghost at1 = at as int;
        let ghost now = r.laid(group@, rest, at as int, orient@, nm);
        let m = &group[list[i]];
        proof {
            assert(rest[0] == list@[i as int]);
            assert(rest.skip(1) =~= list@.skip(i + 1));
            lemma_is_filling_tail(group@, list@, i + 1, h, sw);
            lemma_filled_bounds(group@, list@.skip(i + 1), h, sw);
            assert(sites_of(*m, sw) > 0);
            r.lemma_x(at as int);
        }
        let name = names.make(filler_name(prefix, row, at).as_str());
        let f = Filler {
            name,
            master: m.name.clone(),
            x: grid.core.0 + at as i32 * grid.site_width,
            y: grid.core.1 + grid.row_y[row],
            orient: orient.clone(),
        };
        let ghost fv = f@;
        out.push(f);
        let w: i64 = div_trunc(m.width as i64, grid.site_width as i64);
        at = at + w as usize;
        proof {
            let next = r.laid(group@, list@.skip(i + 1), at as int, orient@, names@);
            assert(now.0 == seq![fv] + next.0);
            assert(fills(out@) =~= o1.push(fv));
            assert(o1.push(fv) + next.0 =~= o1 + (seq![fv] + next.0));
        }
        i = i + 1;
    }
    proof {
        assert(list@.skip(i as int) =~= Seq::empty());
        assert(r.laid(group@, list@.skip(i as int), at as int, orient@, names@).0 =~= Seq::empty());
        assert(fills(out@) + Seq::<Fill>::empty() =~= fills(out@));
    }
}

fn find_group(by_implant: &ByImplant, implant: Option<i64>, Ghost(r): Ghost<Row>) -> (g: Option<usize>)
    requires
        r.groups == by_implant@,
    ensures
        g is Some <==> r.group_of(implant, 0) is Some,
        g matches Some(i) ==> i < by_implant@.len() && r.group_of(implant, 0) == Some(i as int),
{
    let mut i: usize = 0;
    while i < by_implant.len()
        invariant
            r.groups == by_implant@,
            i <= by_implant@.len(),
            r.group_of(implant, i as int) == r.group_of(implant, 0),
        decreases by_implant@.len() - i,
    {
        if same_implant(by_implant[i].0, implant) {
            return Some(i);
        }
        i = i + 1;
    }
    None
}

/// Fill one run of empty squares.
fn fill_run(out: &mut Vec<Filler>, row: usize, j: usize, k: usize, prefix: &str, by_implant: &ByImplant, grid: &Grid,
    cells: &Vec<Vec<Option<Holder>>>, heights: &Vec<(String, i32)>, names: &mut UniqueNames, Ghost(r): Ghost<Row>) -> (e: Option<FillError>)
    requires
        r.wf(),
        r == (Row { row: row as int, prefix: prefix@, groups: by_implant@, grid: *grid, cells: cells@, heights: heights@ }),
        by_implant@.len() > 0,
        j < k <= grid.row_site_count,
        old(names).wf(),
        old(names).taken@.len() + (k - j) + 3 < i32::MAX,
    ensures
        final(names).wf(),
        final(names).taken@.len() <= old(names).taken@.len() + (k - j),
        final(names)@ == r.run_filled(j as int, k as int, old(names)@).1,
        match r.run_filled(j as int, k as int, old(names)@).0 {
            Ok(fs) => e is None && fills(final(out)@) == fills(old(out)@) + fs,
            Err(x) => e matches Some(y) && y@ == x,
        },
{
    let n: usize = grid.row_site_count;
    let (site, orient) = match grid.shortest_site(j, row, heights) {
        Some(p) => p,
        None => return Some(FillError::NoSite(row, j)),
    };
    let beside: Option<i64> = if j > 0 {
        match &cells[row][j - 1] { Some(h) => h.1, None => None }
    } else if k < n {
        match &cells[row][k] { Some(h) => h.1, None => None }
    } else {
        None
    };
    let implant: Option<i64> = if beside.is_some() { beside } else { by_implant[0].0 };
    assert(implant == r.implant_at(j as int, k as int));
    let g: usize = match find_group(by_implant, implant, Ghost(r)) {
        Some(g) => g,
        None => {
            let l: i64 = match implant { Some(l) => l, None => -1 };
            return Some(FillError::NoFillersForImplant(l));
        },
    };
    let gap: i32 = (k - j) as i32;
    let h: i32 = site_height(heights, site.as_str());
    let group = &by_implant[g].1;
    let masters: usize = group.len();
    let list = gap_fillers(group.as_slice(), gap, h, grid.site_width);
    proof {
        r.lemma_x(j as int);
        r.lemma_x(k - j);
    }
    if list.len() == 0 {
        let left = grid_inst_name(cells, row, j as i64 - 1, n, Ghost(r));
        let right = grid_inst_name(cells, row, k as i64 + 1, n, Ghost(r));
        return Some(FillError::CannotFill(Gap {
            sites: gap,
            width: gap * grid.site_width,
            height: h,
            x: grid.core.0 + j as i32 * grid.site_width,
            y: grid.core.1 + grid.row_y[row],
            left,
            right,
        }));
    }
    proof {
        assert(masters == group@.len());
        law_gap_is_filled_exactly(group@, gap as int, h as int, grid.site_width as int);
        lemma_filled_bounds(group@, list@, h as int, grid.site_width as int);
    }
    lay(out, prefix, row, grid, group, &list, j, &orient, names, Ghost(r), Ghost(h as int));
    None
}

/// Fill one grid row: every run of squares that are valid and hold no cell, from its left end.
///
/// A run takes the site and the orientation of the shortest site at its first square. Its fillers
/// come from the implant of the cell to its left, at column 0 of the cell to its right, else from
/// the first group: a run behind an invalid square has no neighbour. The heights are those of a
/// table of sites.
pub fn place_row_fillers(row: usize, prefix: &str, by_implant: &ByImplant, grid: &Grid, cells: &Vec<Vec<Option<Holder>>>,
    heights: &Vec<(String, i32)>, names: &mut UniqueNames) -> (out: Result<Vec<Filler>, FillError>)
    requires
        (Row { row: row as int, prefix: prefix@, groups: by_implant@, grid: *grid, cells: cells@, heights: heights@ }).wf(),
        old(names).wf(),
        old(names).taken@.len() + grid.row_site_count + 3 < i32::MAX,
    ensures
        final(names).wf(),
        final(names).taken@.len() <= old(names).taken@.len() + grid.row_site_count,
        ({
            let r = Row { row: row as int, prefix: prefix@, groups: by_implant@, grid: *grid, cells: cells@, heights: heights@ };
            let f = r.fill(old(names)@);
            &&& final(names)@ == f.1
            &&& match f.0 {
                Ok(s) => out matches Ok(v) && fills(v@) == s,
                Err(e) => out matches Err(x) && x@ == e,
            }
        }),
{
    let ghost r = Row { row: row as int, prefix: prefix@, groups: by_implant@, grid: *grid, cells: cells@, heights: heights@ };
    if by_implant.len() == 0 {
        let none = String::new();
        assert(none@ =~= Seq::<char>::empty());
        return Err(FillError::NoMasters(none));
    }
    let n: usize = grid.row_site_count;
    let ghost nm0 = names@;
    let ghost t0 = names.taken@.len();
    let ghost all = r.filled_from(0, nm0);
    let mut out: Vec<Filler> = Vec::new();
    let mut j: usize = 0;
    assert(fills(out@) =~= Seq::empty());
    proof {
        if all.0 is Ok {
            assert(Seq::<Fill>::empty() + all.0->Ok_0 =~= all.0->Ok_0);
        }
    }
    while j < n
        invariant
            r.wf(),
            r == (Row { row: row as int, prefix: prefix@, groups: by_implant@, grid: *grid, cells: cells@, heights: heights@ }),
            by_implant@.len() > 0,
            n == grid.row_site_count,
            j <= n,
            names.wf(),
            names.taken@.len() <= t0 + j,
            t0 + n + 3 < i32::MAX,
            t0 == old(names).taken@.len(),
            all == r.filled_from(0, nm0),
            nm0 == old(names)@,
            all.1 == r.filled_from(j as int, names@).1,
            match r.filled_from(j as int, names@).0 {
                Err(e) => all.0 == Err::<Seq<Fill>, Fault>(e),
                Ok(s) => all.0 == Ok::<Seq<Fill>, Fault>(fills(out@) + s),
            },
        decreases n - j,
    {
        if cells[row][j].is_some() || !grid.pixels[row][j].is_valid {
            j = j + 1;
            continue;
        }
        assert(r.empty_at(j as int));
        let mut k: usize = j;
        while k < n && cells[row][k].is_none() && grid.pixels[row][k].is_valid
            invariant
                r.wf(),
                r == (Row { row: row as int, prefix: prefix@, groups: by_implant@, grid: *grid, cells: cells@, heights: heights@ }),
                n == grid.row_site_count,
                j <= k <= n,
                r.run_end(k as int) == r.run_end(j as int),
            decreases n - k,
        {
            assert(r.empty_at(k as int));
            k = k + 1;
        }
        proof {
            assert(r.run_end(j as int) == k);
            r.lemma_run_end(j + 1);
            assert(j < k <= n);
        }
        let ghost nm1 = names@;
        let ghost o1 = fills(out@);
        if let Some(e) = fill_run(&mut out, row, j, k, prefix, by_implant, grid, cells, heights, names, Ghost(r)) {
            return Err(e);
        }
        proof {
            let head = r.run_filled(j as int, k as int, nm1);
            let fs = head.0->Ok_0;
            let rest = r.filled_from(k as int, names@);
            if let Ok(gs) = rest.0 {
                assert(o1 + (fs + gs) =~= (o1 + fs) + gs);
            }
        }
        j = k;
    }
    proof {
        assert(fills(out@) + Seq::<Fill>::empty() =~= fills(out@));
    }
    Ok(out)
}

// ── the whole fill ───────────────────────────────────────────────────────────────────────────

/// What a fill reads.
#[derive(Debug)]
pub struct FillInput {
    pub grid: GridInput,
    pub masters: Vec<LibMaster>,
    pub insts: Vec<FillInst>,
    pub inst_names: Vec<String>,
    pub site_heights: Vec<(String, i32)>,
}

/// The rows before `n` filled one after the other.
pub open spec fn rows_filled(r: Row, n: int, nm: Names) -> (Result<Seq<Fill>, Fault>, Names)
    decreases n,
{
    if n <= 0 {
        (Ok(Seq::empty()), nm)
    } else {
        let before = rows_filled(r, n - 1, nm);
        match before.0 {
            Err(e) => (Err(e), before.1),
            Ok(s) => {
                let now = (Row { row: n - 1, ..r }).fill(before.1);
                match now.0 {
                    Err(e) => (Err(e), now.1),
                    Ok(t) => (Ok(s + t), now.1),
                }
            },
        }
    }
}

proof fn lemma_rows_stay_refused(r: Row, m: int, n: int, nm: Names)
    requires
        0 <= m <= n,
        rows_filled(r, m, nm).0 is Err,
    ensures
        rows_filled(r, n, nm) == rows_filled(r, m, nm),
    decreases n,
{
    if m < n {
        lemma_rows_stay_refused(r, m, n - 1, nm);
    }
}

/// The names of the instances, with no number tried yet.
pub open spec fn fresh_names(v: Seq<String>) -> Names {
    Names { taken: crate::globs::name_set(v), ids: Map::new(|s: Seq<char>| true, |s: Seq<char>| 0int) }
}

impl FillInput {
    /// The extents fit the coordinate type, and names can be numbered.
    pub open spec fn in_range(&self) -> bool {
        &&& self.grid.in_range()
        &&& forall|g: Grid| #[trigger] self.grid.makes(g) ==> {
            &&& g.row_count * g.row_site_count + self.inst_names@.len() + 3 < i32::MAX
            &&& is_coord(g.core.0 + g.row_site_count * g.site_width)
            &&& forall|y: int| 0 <= y < g.row_count ==> is_coord(g.core.1 + #[trigger] g.row_y@[y])
            &&& forall|k: int| 0 <= k < self.insts@.len() ==> inst_fits(#[trigger] self.insts@[k], g)
        }
    }

    /// `r` describes a fill: the grid of the input, its masters by implant, and the holders.
    pub open spec fn sets_up(&self, patterns: Seq<String>, prefix: Seq<char>, read: Seq<FillerMaster>, r: Row) -> bool {
        &&& are_read(self.masters@, all_matches(self.masters@, patterns, patterns.len() as int), read)
        &&& is_split(fitting(self.masters@, read, read.len() as int), r.groups)
        &&& self.grid.makes(r.grid)
        &&& shows_holders(r.cells, self.insts@, r.grid)
        &&& r.prefix == prefix
        &&& r.heights == self.site_heights@
        &&& r.row == 0
    }
}

/// Fill every empty run of the design. The fillers are in the order in which they are to be made.
pub fn filler_placement(d: &FillInput, patterns: &Vec<String>, prefix: &str) -> (out: Result<FillReport, FillError>)
    requires
        d.in_range(),
    ensures
        ({
            let ix = all_matches(d.masters@, patterns@, patterns@.len() as int);
            if patterns@.len() > 0 && ix.len() == 0 {
                out matches Err(e) && e@ == Fault::NoMasters(joined(patterns@, patterns@.len() as int))
            } else if !d.grid.makeable() {
                out matches Err(FillError::Grid(e)) && d.grid.refused(e)
            } else {
                exists|read: Seq<FillerMaster>, r: Row| {
                    &&& #[trigger] d.sets_up(patterns@, prefix@, read, r)
                    &&& match rows_filled(r, r.grid.row_count as int, fresh_names(d.inst_names@)).0 {
                        Ok(s) => out matches Ok(p) && fills(p.fillers@) == s
                            && p.unmatched_patterns@ == unmatched(d.masters@, patterns@, patterns@.len() as int),
                        Err(e) => out matches Err(x) && x@ == e,
                    }
                }
            }
        }),
{
    let (read, missed) = match get_masters_arg(&d.masters, patterns) {
        Ok(p) => p,
        Err(e) => return Err(e),
    };
    let kept = filter_filler_masters(&d.masters, &read);
    let by_implant = split_by_implant(&kept);
    let grid = match Grid::build(&d.grid) {
        Ok(g) => g,
        Err(e) => return Err(FillError::Grid(e)),
    };
    let cells = set_grid_cells(&d.insts, &grid);
    let mut names = UniqueNames::new(&d.inst_names);
    let ghost nm0 = names@;
    let ghost t0 = names.taken@.len() as int;
    let ghost r0 = Row { row: 0, prefix: prefix@, groups: by_implant@, grid: grid, cells: cells@, heights: d.site_heights@ };
    proof {
        assert(nm0.ids =~= fresh_names(d.inst_names@).ids);
        assert(d.sets_up(patterns@, prefix@, read@, r0));
    }
    let mut fillers: Vec<Filler> = Vec::new();
    let mut row: usize = 0;
    assert(fills(fillers@) =~= Seq::empty());
    while row < grid.row_count
        invariant
            d.in_range(),
            d.grid.makes(grid),
            grid.wf(),
            has_shape(cells@, grid),
            r0 == (Row { row: 0, prefix: prefix@, groups: by_implant@, grid: grid, cells: cells@, heights: d.site_heights@ }),
            d.sets_up(patterns@, prefix@, read@, r0),
            row <= grid.row_count,
            names.wf(),
            t0 <= d.inst_names@.len(),
            names.taken@.len() <= t0 + row * grid.row_site_count,
            nm0 == fresh_names(d.inst_names@),
            d.grid.makeable(),
            !(patterns@.len() > 0 && all_matches(d.masters@, patterns@, patterns@.len() as int).len() == 0),
            rows_filled(r0, row as int, nm0) == (Ok::<Seq<Fill>, Fault>(fills(fillers@)), names@),
        decreases grid.row_count - row,
    {
        let ghost a = row as int;
        let ghost c = grid.row_site_count as int;
        let ghost here = Row { row: a, ..r0 };
        proof {
            assert((a + 1) * c == a * c + c) by (nonlinear_arith);
            assert((a + 1) * c <= grid.row_count * c) by (nonlinear_arith)
                requires a + 1 <= grid.row_count, c >= 0;
            assert(is_coord(grid.core.1 + grid.row_y@[a]));
            assert(here.wf());
        }
        let ghost o1 = fills(fillers@);
        match place_row_fillers(row, prefix, &by_implant, &grid, &cells, &d.site_heights, &mut names) {
            Ok(mut v) => {
                let ghost vs = v@;
                let ghost f0 = fillers@;
                fillers.append(&mut v);
                assert(fills(fillers@) =~= o1 + fills(vs));
            },
            Err(e) => {
                proof {
                    assert(rows_filled(r0, a + 1, nm0).0 == Err::<Seq<Fill>, Fault>(e@));
                    lemma_rows_stay_refused(r0, a + 1, grid.row_count as int, nm0);
                }
                return Err(e);
            },
        }
        row = row + 1;
    }
    Ok(FillReport { fillers, unmatched_patterns: missed })
}

} // verus!
