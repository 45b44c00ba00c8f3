//! The two-phase negotiation driver: how often to sweep, when a run has stalled, and how it ended.

use vstd::prelude::*;
use crate::arith::{imax, imin};

verus! {

/// How a negotiation run ended.
#[derive(Debug, Clone, Copy, PartialEq, Eq, Structural)]
pub enum Outcome {
    /// No violation left, in the given phase and iteration of that phase.
    Converged { phase: u8, iter: i32 },
    /// The count of violations stood still; recovery ran, then the phase ended.
    StalledIntoRecovery { phase: u8, iter: i32, violations: i128 },
    /// Both phases used up their iterations.
    Exhausted { violations: i128 },
}

/// What a run asks of its surroundings.
pub enum Event {
    /// A sweep, with its iteration number and the violations it left.
    Iterate { iter: int, violations: int },
    /// A recovery.
    Recover,
}

/// What a run drives: something that can sweep and recover.
pub trait Negotiation {
    /// What a run does not change.
    type Setting;

    /// What the run is about.
    spec fn setting(&self) -> Self::Setting;

    /// What every sweep and recovery keeps.
    spec fn inv(&self) -> bool;

    /// How many more sweeps are possible.
    spec fn budget(&self) -> int;

    /// What has been asked of it so far.
    spec fn trace(&self) -> Seq<Event>;

    /// One sweep; returns the violations left.
    fn iterate(&mut self, iter: i32) -> (violations: i128)
        requires
            old(self).inv(),
            old(self).budget() > 0,
            iter >= 0,
        ensures
            final(self).inv(),
            final(self).setting() == old(self).setting(),
            final(self).budget() >= old(self).budget() - 1,
            final(self).trace() == old(self).trace().push(Event::Iterate { iter: iter as int, violations: violations as int }),
    ;

    /// Seat what a stalled phase left.
    fn recover(&mut self)
        requires
            old(self).inv(),
        ensures
            final(self).inv(),
            final(self).setting() == old(self).setting(),
            final(self).budget() >= old(self).budget(),
            final(self).trace() == old(self).trace().push(Event::Recover),
    ;
}

/// Where a run stands: `phase` 0 or 1, its iteration, the count of the sweep before, how often it
/// was repeated, the last count, and where the first phase stalled.
pub struct Progress {
    pub phase: int,
    pub i: int,
    pub prev: int,
    pub stall: int,
    pub last: int,
    pub stalled: Option<(int, int)>,
}

/// A phase that begins.
pub open spec fn phase_start(phase: int, stalled: Option<(int, int)>) -> Progress {
    Progress { phase, i: 0, prev: -1, stall: 0, last: -1, stalled }
}

/// How a run ends whose events from `p` on are `t`, or `None` if no run has these events.
///
/// The second phase goes on with the iteration numbers of the first. A sweep without violations
/// ends the run. Three repetitions of a count are a stall: recovery follows, a first phase then
/// gives way to the second, and a second phase ends the run.
pub open spec fn ending(n1: int, n2: int, p: Progress, t: Seq<Event>) -> Option<Outcome>
    decreases 1 - p.phase, t.len(),
{
    let count = if p.phase == 0 { n1 } else { n2 };
    let first = if p.phase == 0 { 0 } else { n1 };
    if p.i >= count {
        if p.phase == 0 {
            ending(n1, n2, phase_start(1, p.stalled), t)
        } else if t.len() == 0 {
            Some(match p.stalled {
                Some((iter, violations)) => Outcome::StalledIntoRecovery { phase: 1, iter: iter as i32, violations: violations as i128 },
                None => Outcome::Exhausted { violations: p.last as i128 },
            })
        } else {
            None
        }
    } else if t.len() == 0 {
        None
    } else {
        match t[0] {
            Event::Recover => None,
            Event::Iterate { iter, violations } => if iter != first + p.i {
                None
            } else if violations == 0 {
                if t.len() == 1 { Some(Outcome::Converged { phase: (p.phase + 1) as u8, iter: p.i as i32 }) } else { None }
            } else if violations == p.prev && p.stall == 2 {
                if t.len() < 2 || !(t[1] is Recover) {
                    None
                } else if p.phase != 0 {
                    if t.len() == 2 {
                        Some(Outcome::StalledIntoRecovery { phase: 2, iter: p.i as i32, violations: violations as i128 })
                    } else {
                        None
                    }
                } else {
                    ending(n1, n2, phase_start(1, Some((p.i, violations))), t.skip(2))
                }
            } else {
                ending(n1, n2, Progress {
                    i: p.i + 1,
                    prev: violations,
                    stall: if violations == p.prev { p.stall + 1 } else { 0 },
                    last: violations,
                    ..p
                }, t.skip(1))
            },
        }
    }
}

/// Whether a run with these limits, asking for exactly the events `t`, ends with `o`.
pub open spec fn is_run(n1: int, n2: int, t: Seq<Event>, o: Outcome) -> bool {
    ending(n1, n2, phase_start(0, None), t) == Some(o)
}

/// Drive a negotiation to its end: at most `max_iter_neg` sweeps, then at most `max_iter_neg2`.
pub fn run_negotiation<N: Negotiation>(max_iter_neg: i32, max_iter_neg2: i32, n: &mut N) -> (o: Outcome)
    requires
        max_iter_neg >= 0,
        max_iter_neg + max_iter_neg2 <= i32::MAX,
        old(n).inv(),
        old(n).budget() >= imax(max_iter_neg as int, 0) + imax(max_iter_neg2 as int, 0),
    ensures
        final(n).inv(),
        final(n).setting() == old(n).setting(),
        exists|t: Seq<Event>| final(n).trace() == old(n).trace() + t && #[trigger] is_run(max_iter_neg as int, max_iter_neg2 as int, t, o),
{
    let ghost n1 = max_iter_neg as int;
    let ghost n2 = max_iter_neg2 as int;
    let ghost t0 = n.trace();
    let ghost mut t: Seq<Event> = Seq::empty();
    let ghost p0 = phase_start(0, None);
    let mut phase: u8 = 0;
    let mut i: i32 = 0;
    let mut prev: i128 = -1;
    let mut stall: i32 = 0;
    let mut last: i128 = -1;
    let mut stalled: Option<(i32, i128)> = None;
    assert(n.trace() =~= t0 + t);
    assert forall|s: Seq<Event>| #[trigger] ending(n1, n2, p0, t + s) == ending(n1, n2, p0, s) by {
        assert(t + s =~= s);
    }
    loop
        invariant
            n1 == max_iter_neg,
            n2 == max_iter_neg2,
            0 <= n1,
            n1 + n2 <= i32::MAX,
            t0 == old(n).trace(),
            n.inv(),
            n.setting() == old(n).setting(),
            n.trace() == t0 + t,
            phase == 0 || phase == 1,
            0 <= i,
            0 <= stall <= 2,
            phase == 0 ==> i <= imax(n1, 0) && n.budget() >= imax(n1, 0) - i + imax(n2, 0),
            phase == 1 ==> i <= imax(n2, 0) && n.budget() >= imax(n2, 0) - i,
            p0 == phase_start(0, None),
            forall|s: Seq<Event>| #[trigger] ending(n1, n2, p0, t + s) == ending(n1, n2, Progress {
                phase: phase as int,
                i: i as int,
                prev: prev as int,
                stall: stall as int,
                last: last as int,
                stalled: match stalled { Some((a, b)) => Some((a as int, b as int)), None => None },
            }, s),
        decreases 1 - phase, imax(n1, n2) - i,
    {
        let ghost cur = Progress {
            phase: phase as int,
            i: i as int,
            prev: prev as int,
            stall: stall as int,
            last: last as int,
            stalled: match stalled { Some((a, b)) => Some((a as int, b as int)), None => None },
        };
        let count: i32 = if phase == 0 { max_iter_neg } else { max_iter_neg2 };
        if i >= count {
            if phase == 0 {
                assert forall|s: Seq<Event>| #[trigger] ending(n1, n2, p0, t + s) == ending(n1, n2, phase_start(1, cur.stalled), s) by {
                    assert(ending(n1, n2, cur, s) == ending(n1, n2, phase_start(1, cur.stalled), s));
                }
                phase = 1;
                i = 0;
                prev = -1;
                stall = 0;
                last = -1;
                continue;
            }
            let o = match stalled {
                Some((iter, violations)) => Outcome::StalledIntoRecovery { phase: 1, iter, violations },
                None => Outcome::Exhausted { violations: last },
            };
            proof {
                assert(t + Seq::<Event>::empty() =~= t);
                assert(ending(n1, n2, p0, t + Seq::<Event>::empty()) == ending(n1, n2, cur, Seq::<Event>::empty()));
                assert(is_run(n1, n2, t, o));
            }
            return o;
        }
        let actual: i32 = if phase == 0 { i } else { max_iter_neg + i };
        let ghost told = t;
        let violations: i128 = n.iterate(actual);
        let ghost e = Event::Iterate { iter: actual as int, violations: violations as int };
        proof {
            t = t.push(e);
            assert(n.trace() =~= t0 + t);
            assert forall|s: Seq<Event>| #[trigger] ending(n1, n2, p0, t + s) == ending(n1, n2, cur, seq![e] + s) by {
                assert(t + s =~= told + (seq![e] + s));
            }
        }
        last = violations;
        if violations == 0 {
            let o = Outcome::Converged { phase: phase + 1, iter: i };
            proof {
                let s = Seq::<Event>::empty();
                assert(t + s =~= t);
                assert(ending(n1, n2, p0, t + s) == ending(n1, n2, cur, seq![e] + s));
                assert(is_run(n1, n2, t, o));
            }
            return o;
        }
        if violations == prev && stall == 2 {
            let ghost told2 = t;
            n.recover();
            let ghost r = Event::Recover;
            proof {
                t = t.push(r);
                assert(n.trace() =~= t0 + t);
                assert forall|s: Seq<Event>| #[trigger] ending(n1, n2, p0, t + s) == ending(n1, n2, cur, seq![e, r] + s) by {
                    assert(t + s =~= told2 + (seq![r] + s));
                    assert(seq![e] + (seq![r] + s) =~= seq![e, r] + s);
                }
            }
            if phase == 1 {
                let o = Outcome::StalledIntoRecovery { phase: 2, iter: i, violations };
                proof {
                    let s = Seq::<Event>::empty();
                    assert(t + s =~= t);
                    assert(ending(n1, n2, p0, t + s) == ending(n1, n2, cur, seq![e, r] + s));
                    assert(is_run(n1, n2, t, o));
                }
                return o;
            }
            assert forall|s: Seq<Event>| #[trigger] ending(n1, n2, p0, t + s) == ending(n1, n2, phase_start(1, Some((i as int, violations as int))), s) by {
                assert((seq![e, r] + s).skip(2) =~= s);
                assert((seq![e, r] + s)[1] is Recover);
            }
            stalled = Some((i, violations));
            phase = 1;
            i = 0;
            prev = -1;
            stall = 0;
            last = -1;
            continue;
        }
        assert forall|s: Seq<Event>| #[trigger] ending(n1, n2, p0, t + s) == ending(n1, n2, Progress {
            i: i + 1,
            prev: violations as int,
            stall: if violations == prev { stall + 1 } else { 0 },
            last: violations as int,
            ..cur
        }, s) by {
            assert((seq![e] + s).skip(1) =~= s);
        }
        if violations == prev {
            stall = stall + 1;
        } else {
            stall = 0;
        }
        prev = violations;
        i = i + 1;
    }
}

/// A run that converged ends with a sweep that left no violation.
pub proof fn lemma_converged_ends_clean(n1: int, n2: int, p: Progress, t: Seq<Event>)
    requires
        ending(n1, n2, p, t) matches Some(o) && o is Converged,
    ensures
        t.len() > 0,
        t.last() matches Event::Iterate { iter, violations } && violations == 0,
    decreases 1 - p.phase, t.len(),
{
    let count = if p.phase == 0 { n1 } else { n2 };
    if p.i >= count {
        if p.phase == 0 {
            lemma_converged_ends_clean(n1, n2, phase_start(1, p.stalled), t);
        }
    } else if t.len() > 0 {
        match t[0] {
            Event::Recover => {},
            Event::Iterate { iter, violations } => {
                if violations != 0 {
                    if violations == p.prev && p.stall == 2 {
                        if t.len() >= 2 && p.phase == 0 {
                            lemma_converged_ends_clean(n1, n2, phase_start(1, Some((p.i, violations))), t.skip(2));
                            assert(t.skip(2).last() == t.last());
                        }
                    } else {
                        let q = Progress {
                            i: p.i + 1,
                            prev: violations,
                            stall: if violations == p.prev { p.stall + 1 } else { 0 },
                            last: violations,
                            ..p
                        };
                        lemma_converged_ends_clean(n1, n2, q, t.skip(1));
                        assert(t.skip(1).last() == t.last());
                    }
                }
            },
        }
    }
}

/// A run replayed from recorded counts of violations, one for each sweep; the last one stands for the
/// sweeps that follow. It notes what it is asked.
pub struct Replay {
    pub counts: Vec<i128>,
    /// The iteration numbers of the sweeps.
    pub sweeps: Vec<i32>,
    /// How many sweeps there were before each recovery.
    pub recoveries: Vec<usize>,
    pub events: Ghost<Seq<Event>>,
}

/// The events, the first sweep among them being the `k`th, carry recorded counts: one for each sweep, and the
/// last one for the sweeps that follow.
pub open spec fn carries(t: Seq<Event>, counts: Seq<i128>, k: int) -> bool
    decreases t.len(),
{
    if t.len() == 0 {
        true
    } else {
        match t[0] {
            Event::Iterate { iter, violations } => violations == counts[imin(k, counts.len() - 1)] && carries(t.skip(1), counts, k + 1),
            Event::Recover => carries(t.skip(1), counts, k),
        }
    }
}

/// The iteration numbers of the sweeps among some events.
pub open spec fn sweeps_of(t: Seq<Event>) -> Seq<int>
    decreases t.len(),
{
    if t.len() == 0 {
        Seq::empty()
    } else {
        match t[0] {
            Event::Iterate { iter, violations } => seq![iter] + sweeps_of(t.skip(1)),
            Event::Recover => sweeps_of(t.skip(1)),
        }
    }
}

/// How many sweeps there were before each recovery among some events, the first sweep being the `k`th.
pub open spec fn recoveries_of(t: Seq<Event>, k: int) -> Seq<int>
    decreases t.len(),
{
    if t.len() == 0 {
        Seq::empty()
    } else {
        match t[0] {
            Event::Iterate { iter, violations } => recoveries_of(t.skip(1), k + 1),
            Event::Recover => seq![k] + recoveries_of(t.skip(1), k),
        }
    }
}

/// One more event at the end.
proof fn lemma_one_more(t: Seq<Event>, counts: Seq<i128>, k: int, e: Event)
    requires
        carries(t, counts, k),
        0 <= k,
        e matches Event::Iterate { iter, violations } ==> violations == counts[imin(k + sweeps_of(t).len(), counts.len() - 1)],
    ensures
        carries(t.push(e), counts, k),
        sweeps_of(t.push(e)) == (match e {
            Event::Iterate { iter, violations } => sweeps_of(t).push(iter),
            Event::Recover => sweeps_of(t),
        }),
        recoveries_of(t.push(e), k) == (match e {
            Event::Iterate { iter, violations } => recoveries_of(t, k),
            Event::Recover => recoveries_of(t, k).push(k + sweeps_of(t).len()),
        }),
    decreases t.len(),
{
    let u = t.push(e);
    if t.len() == 0 {
        reveal_with_fuel(sweeps_of, 2);
        reveal_with_fuel(recoveries_of, 2);
        reveal_with_fuel(carries, 2);
        assert(u.skip(1) =~= Seq::<Event>::empty());
        assert(sweeps_of(u) =~= (match e {
            Event::Iterate { iter, violations } => sweeps_of(t).push(iter),
            Event::Recover => sweeps_of(t),
        }));
        assert(recoveries_of(u, k) =~= (match e {
            Event::Iterate { iter, violations } => recoveries_of(t, k),
            Event::Recover => recoveries_of(t, k).push(k + sweeps_of(t).len()),
        }));
    } else {
        assert(u[0] == t[0]);
        assert(u.skip(1) =~= t.skip(1).push(e));
        let next = match t[0] {
            Event::Iterate { iter, violations } => k + 1,
            Event::Recover => k,
        };
        lemma_one_more(t.skip(1), counts, next, e);
        assert(sweeps_of(u) =~= (match e {
            Event::Iterate { iter, violations } => sweeps_of(t).push(iter),
            Event::Recover => sweeps_of(t),
        }));
        assert(recoveries_of(u, k) =~= (match e {
            Event::Iterate { iter, violations } => recoveries_of(t, k),
            Event::Recover => recoveries_of(t, k).push(k + sweeps_of(t).len()),
        }));
    }
}

proof fn lemma_replay_determined(n1: int, n2: int, counts: Seq<i128>, k: int, p: Progress, t: Seq<Event>, u: Seq<Event>)
    requires
        ending(n1, n2, p, t) is Some,
        ending(n1, n2, p, u) is Some,
        carries(t, counts, k),
        carries(u, counts, k),
    ensures
        t == u,
        ending(n1, n2, p, t) == ending(n1, n2, p, u),
    decreases 1 - p.phase, t.len(),
{
    let count = if p.phase == 0 { n1 } else { n2 };
    if p.i >= count {
        if p.phase == 0 {
            lemma_replay_determined(n1, n2, counts, k, phase_start(1, p.stalled), t, u);
        } else {
            assert(t =~= u);
        }
    } else {
        assert(t[0] == u[0]);
        match t[0] {
            Event::Recover => {},
            Event::Iterate { iter, violations } => {
                if violations == 0 {
                    assert(t =~= u);
                } else if violations == p.prev && p.stall == 2 {
                    reveal_with_fuel(carries, 3);
                    assert(t[1] == u[1]);
                    assert(t.skip(1)[0] == t[1] && u.skip(1)[0] == u[1]);
                    assert(t.skip(1).skip(1) =~= t.skip(2));
                    assert(u.skip(1).skip(1) =~= u.skip(2));
                    if p.phase == 0 {
                        lemma_replay_determined(n1, n2, counts, k + 1, phase_start(1, Some((p.i, violations))), t.skip(2), u.skip(2));
                        assert forall|j: int| 0 <= j < t.len() implies t[j] == u[j] by {
                            if j >= 2 {
                                assert(t.skip(2)[j - 2] == u.skip(2)[j - 2]);
                            }
                        }
                        assert(t.skip(2).len() == u.skip(2).len());
                    }
                    assert(t =~= u);
                } else {
                    let q = Progress {
                        i: p.i + 1,
                        prev: violations,
                        stall: if violations == p.prev { p.stall + 1 } else { 0 },
                        last: violations,
                        ..p
                    };
                    lemma_replay_determined(n1, n2, counts, k + 1, q, t.skip(1), u.skip(1));
                    assert(t.skip(1).len() == u.skip(1).len());
                    assert forall|j: int| 0 <= j < t.len() implies t[j] == u[j] by {
                        if j >= 1 {
                            assert(t.skip(1)[j - 1] == u.skip(1)[j - 1]);
                        }
                    }
                    assert(t =~= u);
                }
            },
        }
    }
}

/// What a replayed run does and how it ends follow from its limits and the recorded counts alone.
pub proof fn law_replay_is_determined(n1: int, n2: int, counts: Seq<i128>, t: Seq<Event>, o: Outcome, u: Seq<Event>, q: Outcome)
    requires
        is_run(n1, n2, t, o),
        is_run(n1, n2, u, q),
        carries(t, counts, 0),
        carries(u, counts, 0),
    ensures
        t == u,
        o == q,
{
    lemma_replay_determined(n1, n2, counts, 0, phase_start(0, None), t, u);
}

/// The run of a phase in which every sweep leaves the same count: the fourth sweep is a stall.
proof fn lemma_standing(n1: int, n2: int, c: i128, k: int, p: Progress, t: Seq<Event>)
    requires
        c > 0,
        n1 >= 4,
        n2 >= 4,
        p.phase == 0 || p.phase == 1,
        0 <= p.i <= 3,
        p.i == 0 ==> p.prev == -1 && p.stall == 0,
        p.i > 0 ==> p.prev == c && p.stall == p.i - 1,
        carries(t, seq![c], k),
        0 <= k,
        ending(n1, n2, p, t) is Some,
    ensures
        ending(n1, n2, p, t) == Some(Outcome::StalledIntoRecovery { phase: 2, iter: 3, violations: c }),
    decreases 1 - p.phase, t.len(),
{
    match t[0] {
        Event::Recover => {},
        Event::Iterate { iter, violations } => {
            assert(violations == c);
            if p.i < 3 {
                let q = Progress {
                    i: p.i + 1,
                    prev: violations,
                    stall: if violations == p.prev { p.stall + 1 } else { 0 },
                    last: violations,
                    ..p
                };
                lemma_standing(n1, n2, c, k + 1, q, t.skip(1));
            } else if p.phase == 0 {
                reveal_with_fuel(carries, 3);
                assert(t.skip(1)[0] == t[1]);
                assert(t.skip(1).skip(1) =~= t.skip(2));
                lemma_standing(n1, n2, c, k + 1, phase_start(1, Some((p.i, violations))), t.skip(2));
            }
        },
    }
}

/// A run whose sweeps all leave the same violations stalls in both phases, on the fourth sweep of each.
pub proof fn law_standing_count_stalls(n1: int, n2: int, c: i128, t: Seq<Event>, o: Outcome)
    requires
        c > 0,
        n1 >= 4,
        n2 >= 4,
        is_run(n1, n2, t, o),
        carries(t, seq![c], 0),
    ensures
        o == (Outcome::StalledIntoRecovery { phase: 2, iter: 3, violations: c }),
{
    lemma_standing(n1, n2, c, 0, phase_start(0, None), t);
}

impl Replay {
    /// Nothing asked yet.
    pub fn new(counts: Vec<i128>) -> (r: Replay)
        ensures
            r.counts == counts,
            r.sweeps@.len() == 0,
            r.recoveries@.len() == 0,
            r.trace() == Seq::<Event>::empty(),
            counts@.len() > 0 ==> r.inv(),
    {
        let r = Replay { counts, sweeps: Vec::new(), recoveries: Vec::new(), events: Ghost(Seq::empty()) };
        proof {
            assert(r.sweeps@.map_values(|i: i32| i as int) =~= Seq::<int>::empty());
            assert(r.recoveries@.map_values(|k: usize| k as int) =~= Seq::<int>::empty());
        }
        r
    }
}

impl Negotiation for Replay {
    type Setting = Seq<i128>;

    open spec fn setting(&self) -> Seq<i128> {
        self.counts@
    }

    open spec fn inv(&self) -> bool {
        &&& self.counts@.len() > 0
        &&& carries(self.events@, self.counts@, 0)
        &&& self.sweeps@.map_values(|i: i32| i as int) == sweeps_of(self.events@)
        &&& self.recoveries@.map_values(|k: usize| k as int) == recoveries_of(self.events@, 0)
    }

    open spec fn budget(&self) -> int {
        i128::MAX - self.sweeps@.len()
    }

    open spec fn trace(&self) -> Seq<Event> {
        self.events@
    }

    /// The count recorded for the sweep, or the last one.
    fn iterate(&mut self, iter: i32) -> (violations: i128)
        ensures
            violations == old(self).counts@[imin(old(self).sweeps@.len() as int, old(self).counts@.len() - 1)],
            final(self).counts == old(self).counts,
            final(self).sweeps@ == old(self).sweeps@.push(iter),
            final(self).recoveries == old(self).recoveries,
    {
        let n: usize = self.sweeps.len();
        let v: i128 = if n < self.counts.len() { self.counts[n] } else { self.counts[self.counts.len() - 1] };
        let ghost t = self.events@;
        let ghost s = self.sweeps@;
        let ghost e = Event::Iterate { iter: iter as int, violations: v as int };
        self.sweeps.push(iter);
        self.events = Ghost(self.events@.push(e));
        proof {
            lemma_one_more(t, self.counts@, 0, e);
            assert(s.map_values(|i: i32| i as int).len() == sweeps_of(t).len());
            assert(self.sweeps@.map_values(|i: i32| i as int) =~= s.map_values(|i: i32| i as int).push(iter as int));
        }
        v
    }

    fn recover(&mut self)
        ensures
            final(self).counts == old(self).counts,
            final(self).sweeps == old(self).sweeps,
            final(self).recoveries@ == old(self).recoveries@.push(old(self).sweeps@.len() as usize),
    {
        let ghost t = self.events@;
        let ghost r = self.recoveries@;
        self.recoveries.push(self.sweeps.len());
        self.events = Ghost(self.events@.push(Event::Recover));
        proof {
            lemma_one_more(t, self.counts@, 0, Event::Recover);
            assert(self.sweeps@.map_values(|i: i32| i as int).len() == sweeps_of(t).len());
            assert(self.recoveries@.map_values(|k: usize| k as int) =~= r.map_values(|k: usize| k as int).push(self.sweeps@.len() as int));
        }
    }
}

} // verus!
