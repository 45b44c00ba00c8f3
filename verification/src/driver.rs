//! The stages of improving a placement, and what comes after them.

use vstd::prelude::*;
use crate::checks::{resorted, seated, Checks};
use crate::land::{Land, Live, St};
use crate::text::same_text;

verus! {

/// A stage of improving.
#[derive(Debug, Clone, Copy, PartialEq, Eq, Structural)]
pub enum Stage {
    Matching,
    GlobalSwap,
    VerticalSwap,
    Reorder,
    Random,
}

impl Stage {
    /// The short name of a stage.
    pub open spec fn text(self) -> Seq<char> {
        match self {
            Stage::Matching => "mis"@,
            Stage::GlobalSwap => "gs"@,
            Stage::VerticalSwap => "vs"@,
            Stage::Reorder => "ro"@,
            Stage::Random => "default"@,
        }
    }

    /// What a stage does.
    pub open spec fn what(self) -> Seq<char> {
        match self {
            Stage::Matching => "independent set matching"@,
            Stage::GlobalSwap => "global swaps"@,
            Stage::VerticalSwap => "vertical swaps"@,
            Stage::Reorder => "reordering"@,
            Stage::Random => "random improvement"@,
        }
    }

    /// The short name of a stage.
    pub fn name(self) -> (r: &'static str)
        ensures
            r@ == self.text(),
    {
        match self {
            Stage::Matching => "mis",
            Stage::GlobalSwap => "gs",
            Stage::VerticalSwap => "vs",
            Stage::Reorder => "ro",
            Stage::Random => "default",
        }
    }

    /// What a stage does.
    pub fn title(self) -> (r: &'static str)
        ensures
            r@ == self.what(),
    {
        match self {
            Stage::Matching => "independent set matching",
            Stage::GlobalSwap => "global swaps",
            Stage::VerticalSwap => "vertical swaps",
            Stage::Reorder => "reordering",
            Stage::Random => "random improvement",
        }
    }
}

/// The stages in order.
pub open spec fn script() -> Seq<Stage> {
    seq![Stage::Matching, Stage::GlobalSwap, Stage::VerticalSwap, Stage::Reorder, Stage::Random]
}

/// What to do.
#[derive(Debug)]
pub struct Options {
    /// How many random numbers to pass over before the first stage that runs, where it is named.
    pub rng_skip: Option<u64>,
    /// Whether to show the state before and after every stage.
    pub trace_stages: bool,
    /// A file with the line that says where the cells are before the first stage, where it is named.
    pub inject_file: Option<String>,
    /// The first stage to run, and the last.
    pub start_stage: Option<String>,
    pub stop_stage: Option<String>,
    /// Whether to report the gaps of one site, on any design.
    pub report_gaps: bool,
}

/// Which stages run.
#[derive(Debug)]
pub struct Plan {
    pub skipped: Vec<Stage>,
    pub run: Vec<Stage>,
    /// Whether the cells are turned and checked after the stages.
    pub finish: bool,
    /// Whether the rule against gaps of one site is shown as a stage.
    pub show_gap_rule: bool,
}

/// The first stage from the `k`th on with a name, their number if there is none.
pub open spec fn stage_at(name: Seq<char>, k: int) -> int
    decreases 5 - k,
{
    if k >= 5 {
        5
    } else if script()[k].text() == name {
        k
    } else {
        stage_at(name, k + 1)
    }
}

impl Options {
    /// Where the stages start.
    pub open spec fn first(&self) -> int {
        match self.start_stage {
            Some(s) => stage_at(s@, 0),
            None => 0,
        }
    }

    /// Where the stages end: past the stage to stop at, if it is reached.
    pub open spec fn end(&self) -> int {
        match self.stop_stage {
            Some(s) => if stage_at(s@, self.first()) < 5 { stage_at(s@, self.first()) + 1 } else { 5 },
            None => 5,
        }
    }

    /// Whether the stages are stopped before the end.
    pub open spec fn stops(&self) -> bool {
        self.stop_stage matches Some(s) && stage_at(s@, self.first()) < 5
    }
}

fn stage_from(name: &str, from: usize) -> (r: usize)
    requires
        from <= 5,
    ensures
        r == stage_at(name@, from as int),
        from <= r <= 5,
{
    let all = stages();
    let mut k: usize = from;
    while k < 5
        invariant
            all@ == script(),
            from <= k <= 5,
            stage_at(name@, from as int) == stage_at(name@, k as int),
        decreases 5 - k,
    {
        if same_text(all[k].name(), name) {
            return k;
        }
        k = k + 1;
    }
    5
}

fn stages() -> (r: Vec<Stage>)
    ensures
        r@ == script(),
{
    let mut r: Vec<Stage> = Vec::new();
    r.push(Stage::Matching);
    r.push(Stage::GlobalSwap);
    r.push(Stage::VerticalSwap);
    r.push(Stage::Reorder);
    r.push(Stage::Random);
    assert(r@ =~= script());
    r
}

/// Which stages run: from the first named up to the one to stop at. Where no stage has the first name,
/// none runs.
pub fn plan(o: &Options, disallow_gaps: bool) -> (p: Plan)
    ensures
        p.skipped@ == script().subrange(0, o.first()),
        p.run@ == script().subrange(o.first(), o.end()),
        p.finish == !o.stops(),
        p.show_gap_rule == (disallow_gaps && o.stop_stage is None),
{
    let all = stages();
    let first: usize = match &o.start_stage {
        Some(s) => stage_from(s.as_str(), 0),
        None => 0,
    };
    let at: usize = match &o.stop_stage {
        Some(s) => stage_from(s.as_str(), first),
        None => 5,
    };
    let end: usize = if at < 5 { at + 1 } else { 5 };
    let mut skipped: Vec<Stage> = Vec::new();
    let mut run: Vec<Stage> = Vec::new();
    let mut k: usize = 0;
    while k < first
        invariant
            all@ == script(),
            first <= 5,
            k <= first,
            skipped@ == script().subrange(0, k as int),
        decreases first - k,
    {
        skipped.push(all[k]);
        k = k + 1;
        assert(skipped@ =~= script().subrange(0, k as int));
    }
    let mut k: usize = first;
    assert(run@ =~= script().subrange(first as int, k as int));
    while k < end
        invariant
            all@ == script(),
            first <= k <= end <= 5,
            run@ == script().subrange(first as int, k as int),
        decreases end - k,
    {
        run.push(all[k]);
        k = k + 1;
        assert(run@ =~= script().subrange(first as int, k as int));
    }
    Plan { skipped, run, finish: at == 5, show_gap_rule: disallow_gaps && o.stop_stage.is_none() }
}

/// What comes after the stages.
#[derive(Debug)]
pub struct Finish {
    /// How many cells fit no row, how many were turned to fit one, and how many flips count.
    pub turns: (usize, usize, usize),
    /// The length of the nets before and after the cells were turned.
    pub lengths: (u64, u64),
    /// The gaps of one site, where they are asked for.
    pub gaps: Vec<(usize, usize)>,
    pub checks: Checks,
    /// How many gaps of one site are left where they are not allowed, 0 where they are.
    pub gaps_left: usize,
    /// The length of the nets.
    pub hpwl: u64,
}

impl Land {
    /// The state after cells were turned and flipped, and how many of each.
    pub open spec fn turned_all(&self, s: St) -> (St, (int, int, int)) {
        let a = self.oriented(s, self.count());
        let b = self.flipped_all(a.0, self.segments@.len() as int);
        if self.wire_length(s) == 0 { (s, (0, 0, 0)) } else { (b.0, (a.1, a.2, b.1)) }
    }

    /// The state that is checked after the stages.
    pub open spec fn checked(&self, s: St, report_gaps: bool) -> St {
        let t = self.turned_all(s).0;
        if report_gaps { resorted(t, self.segments@.len() as int) } else { t }
    }

    /// The state after all.
    pub open spec fn finished(&self, s: St, report_gaps: bool) -> St {
        let t = self.checked(s, report_gaps);
        if self.disallow_gaps { resorted(t, self.segments@.len() as int) } else { t }
    }

    /// The cells of all segments together can be counted.
    pub open spec fn countable(&self, s: St) -> bool {
        2 * seated(s, self.segments@.len() as int) <= usize::MAX
    }

    /// `f` is what comes after the stages.
    pub open spec fn is_finish(&self, s: St, report_gaps: bool, f: Finish) -> bool {
        let m = self.segments@.len() as int;
        &&& (f.turns.0 as int, f.turns.1 as int, f.turns.2 as int) == self.turned_all(s).1
        &&& f.lengths.0 == self.wire_length(s) && f.lengths.1 == self.wire_length(self.turned_all(s).0)
        &&& f.gaps@ == (if report_gaps { self.gap_list(self.checked(s, true), m) } else { Seq::empty() })
        &&& self.counted(self.checked(s, report_gaps), f.checks)
        &&& f.gaps_left == (if self.disallow_gaps { self.gap_list(self.finished(s, report_gaps), m).len() } else { 0 })
        &&& f.hpwl == self.wire_length(self.finished(s, report_gaps))
    }
}

/// Turn the cells to fit their rows and flip those that shorten their nets, then check them. `None` where
/// there are more cells in segments than can be counted.
pub fn finish(l: &Land, live: &mut Live, report_gaps: bool) -> (r: Option<Finish>)
    requires
        l.wf(),
        l.ok(old(live)@),
    ensures
        l.ok(final(live)@),
        r is None <==> !l.countable(old(live)@) || !l.countable(l.checked(old(live)@, report_gaps)),
        r matches Some(f) ==> l.is_finish(old(live)@, report_gaps, f) && final(live)@ == l.finished(old(live)@, report_gaps),
{
    if !live.few_seated(l) {
        return None;
    }
    let before: u64 = live.total_hpwl_xy(l);
    let turns = live.orient(l);
    let after: u64 = live.total_hpwl_xy(l);
    let gaps: Vec<(usize, usize)> = if report_gaps { live.one_site_gap_violations(l) } else { Vec::new() };
    if !live.few_seated(l) {
        return None;
    }
    let checks = live.run_checks(l);
    let gaps_left: usize = if l.disallow_gaps { live.one_site_gap_violations(l).len() } else { 0 };
    let hpwl: u64 = live.total_hpwl(l);
    assert(!report_gaps ==> gaps@ =~= Seq::empty());
    Some(Finish { turns, lengths: (before, after), gaps, checks, gaps_left, hpwl })
}

} // verus!
