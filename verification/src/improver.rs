//! Random improvement: a random cell is moved to, or swapped with what is at, a random place near it,
//! and the move is kept where the nets do not get longer.

use vstd::prelude::*;
use crate::arith::{imax, imin};
use crate::land::{all_below, node_in, Land, Live, St};
use crate::random::{Mt19937, Twister};
use crate::rows::COORD_LIMIT;
use crate::segments::lists;

verus! {

/// How far away the random place is, in columns and in rows.
pub const WINDOW_REACH: i32 = 10;

/// How many random places are tried.
pub const TRIES: usize = 5;

/// How many passes are made at most, and how many moves are tried for each candidate in a pass.
pub const RANDOM_PASSES: usize = 5;
pub const TRIES_PER_CANDIDATE: usize = 20;

/// A mesh over the rows: places in X, and the row each of its rows lies in.
pub struct Mesh {
    /// Each place rounded down, rounded up and to the nearest number.
    pub places: Vec<(i32, i32, i32)>,
    pub rows: Vec<usize>,
}

/// How a random move went.
#[derive(Debug, Clone, Copy, PartialEq, Eq, Structural)]
pub enum Tried {
    Failed,
    Moved,
    Swapped,
}

/// A number moved by a random distance and kept below a bound.
pub open spec fn jittered(at: int, draw: int, bound: int) -> int {
    imin(bound - 1, imax(0, at - WINDOW_REACH + draw))
}

impl Land {
    /// The first segment from the `k`th of a row on that holds a place, given the numbers around it.
    pub open spec fn seg_around(&self, row: int, lo: int, hi: int, k: int) -> Option<usize>
        decreases self.segs_in_row@[row]@.len() - k,
    {
        let list = self.segs_in_row@[row]@;
        if k >= list.len() {
            None
        } else if self.segments@[list[k] as int].min_x <= lo && hi <= self.segments@[list[k] as int].max_x {
            Some(list[k])
        } else {
            self.seg_around(row, lo, hi, k + 1)
        }
    }

    /// The target of a cell at a place of the mesh: in its own region.
    pub open spec fn mesh_target(&self, s: St, nd: usize, mesh: Mesh, x: int, y: int) -> Option<(usize, int, usize)> {
        let (lo, hi, near) = mesh.places@[x];
        let home = s.homes[nd as int];
        match self.seg_around(mesh.rows@[y] as int, lo as int, hi as int, 0) {
            Some(g) => if home.len() > 0 && s.nodes[nd as int].group == self.segments@[g as int].reg { Some((home[0], near as int, g)) } else { None },
            None => None,
        }
    }

    /// How moving a cell to a target, or else swapping it with the cell there, goes.
    pub open spec fn outcome(&self, s: St, nd: usize, target: Option<(usize, int, usize)>) -> Tried {
        match target {
            None => Tried::Failed,
            Some(g) => if self.tried_move(s, nd, g.0, g.1 as i32, g.2).0 {
                Tried::Moved
            } else if self.moved_or_swapped(s, nd, target).0 {
                Tried::Swapped
            } else {
                Tried::Failed
            },
        }
    }

    /// Up to `n` tries of random places around a square of the mesh, until one holds.
    pub open spec fn jostled(&self, s: St, t: Twister, nd: usize, mesh: Mesh, x: int, y: int, n: int) -> (Tried, St, Twister)
        decreases n,
    {
        if n <= 0 {
            (Tried::Failed, s, t)
        } else {
            let xj = jittered(x, t.below(2 * WINDOW_REACH + 1), mesh.places@.len() as int);
            let yj = jittered(y, t.next().below(2 * WINDOW_REACH + 1), mesh.rows@.len() as int);
            let g = self.mesh_target(s, nd, mesh, xj, yj);
            let m = self.moved_or_swapped(s, nd, g);
            let u = t.next().next();
            if m.0 { (self.outcome(s, nd, g), m.1, u) } else { self.jostled(m.1, u, nd, mesh, x, y, n - 1) }
        }
    }

    /// The mesh's rows are rows there are.
    pub open spec fn mesh_ok(&self, mesh: Mesh) -> bool {
        &&& 0 < mesh.places@.len() <= COORD_LIMIT
        &&& 0 < mesh.rows@.len() <= COORD_LIMIT
        &&& all_below(mesh.rows@, self.arch.rows@.len() as int)
    }

    /// The candidate that is picked at random, if it is one row high.
    pub open spec fn picked(&self, s: St, t: Twister, cands: Seq<usize>) -> Option<usize> {
        let nd = cands[t.below(cands.len() as int)];
        if self.arch.rows_high(s.nodes[nd as int].height as int) == 1 { Some(nd) } else { None }
    }
}

fn jitter(at: usize, draw: usize, bound: usize) -> (r: usize)
    requires
        at < 0x1000_0000,
        draw < 0x1000_0000,
        0 < bound <= 0x1000_0000,
    ensures
        r == jittered(at as int, draw as int, bound as int),
        r < bound,
{
    let v: i64 = at as i64 - WINDOW_REACH as i64 + draw as i64;
    let top: i64 = bound as i64 - 1;
    let up: i64 = if v < 0 { 0 } else { v };
    (if up > top { top } else { up }) as usize
}

impl Live {
    /// Pick a candidate at random. `None` if it is not one row high.
    pub fn pick(&self, l: &Land, rng: &mut Mt19937, cands: &Vec<usize>) -> (r: Option<usize>)
        requires
            l.wf(),
            l.ok(self@),
            old(rng)@.wf(),
            cands@.len() > 0,
            all_below(cands@, l.count()),
        ensures
            final(rng)@.wf(),
            final(rng)@ == old(rng)@.next(),
            r == l.picked(self@, old(rng)@, cands@),
            r matches Some(nd) ==> nd < l.count(),
    {
        let k: usize = rng.get_random(cands.len());
        let nd: usize = cands[k];
        assert(node_in(self@.nodes[nd as int]));
        assert(l.arch.rows@[0].ok());
        if l.arch.height_in_rows(self.nodes[nd].height) == 1 { Some(nd) } else { None }
    }

    /// Where a cell goes that is sent to a place of the mesh.
    fn target_at(&self, l: &Land, nd: usize, mesh: &Mesh, x: usize, y: usize) -> (r: Option<(usize, i32, usize)>)
        requires
            l.wf(),
            l.ok(self@),
            nd < l.count(),
            l.mesh_ok(*mesh),
            x < mesh.places@.len(),
            y < mesh.rows@.len(),
        ensures
            match l.mesh_target(self@, nd, *mesh, x as int, y as int) {
                None => r is None,
                Some(g) => r == Some((g.0, g.1 as i32, g.2)) && i32::MIN <= g.1 <= i32::MAX,
            },
            r matches Some(g) ==> g.0 < l.segments@.len() && g.2 < l.segments@.len(),
    {
        let (lo, hi, near) = mesh.places[x];
        let row: usize = mesh.rows[y];
        let list = &l.segs_in_row[row];
        proof {
            assert(lists(l.segs_in_row@)[row as int] == list@);
            assert(all_below(list@, l.segments@.len() as int));
            assert(self@.homes[nd as int] == self.cell_segs@[nd as int]@);
            assert(all_below(self@.homes[nd as int], l.segments@.len() as int));
        }
        let mut k: usize = 0;
        while k < list.len()
            invariant
                row < l.segs_in_row@.len(),
                list@ == l.segs_in_row@[row as int]@,
                all_below(list@, l.segments@.len() as int),
                k <= list@.len(),
                l.seg_around(row as int, lo as int, hi as int, 0) == l.seg_around(row as int, lo as int, hi as int, k as int),
                nd < l.count(),
                l.ok(self@),
                self@.homes[nd as int] == self.cell_segs@[nd as int]@,
                all_below(self@.homes[nd as int], l.segments@.len() as int),
                x < mesh.places@.len(),
                y < mesh.rows@.len(),
                (lo, hi, near) == mesh.places@[x as int],
                row == mesh.rows@[y as int],
            decreases list@.len() - k,
        {
            let g: usize = list[k];
            if l.segments[g].min_x <= lo && hi <= l.segments[g].max_x {
                if self.cell_segs[nd].len() > 0 && self.nodes[nd].group == l.segments[g].reg {
                    return Some((self.cell_segs[nd][0], near, g));
                }
                return None;
            }
            k = k + 1;
        }
        None
    }

    /// Try random places around a square of the mesh for a cell, until one holds. How that went.
    pub fn generate(&mut self, l: &Land, rng: &mut Mt19937, nd: usize, mesh: &Mesh, x: usize, y: usize) -> (r: Tried)
        requires
            l.wf(),
            l.ok(old(self)@),
            old(rng)@.wf(),
            nd < l.count(),
            old(self)@.homes[nd as int].len() > 0,
            l.mesh_ok(*mesh),
            x < mesh.places@.len(),
            y < mesh.rows@.len(),
        ensures
            l.ok(final(self)@),
            final(rng)@.wf(),
            (r, final(self)@, final(rng)@) == l.jostled(old(self)@, old(rng)@, nd, *mesh, x as int, y as int, TRIES as int),
    {
        let ghost goal = l.jostled(self@, rng@, nd, *mesh, x as int, y as int, TRIES as int);
        let span: usize = 2 * WINDOW_REACH as usize + 1;
        let mut k: usize = TRIES;
        while k > 0
            invariant
                l.wf(),
                l.ok(self@),
                rng@.wf(),
                nd < l.count(),
                l.mesh_ok(*mesh),
                x < mesh.places@.len(),
                y < mesh.rows@.len(),
                span == 2 * WINDOW_REACH + 1,
                k <= TRIES,
                goal == l.jostled(old(self)@, old(rng)@, nd, *mesh, x as int, y as int, TRIES as int),
                l.jostled(self@, rng@, nd, *mesh, x as int, y as int, k as int) == goal,
            decreases k,
        {
            k = k - 1;
            let xj: usize = jitter(x, rng.get_random(span), mesh.places.len());
            let yj: usize = jitter(y, rng.get_random(span), mesh.rows.len());
            if let Some(g) = self.target_at(l, nd, mesh, xj, yj) {
                let left: i32 = self.nodes[nd].left;
                if self.try_move(l, nd, g.0, g.1, g.2) {
                    return Tried::Moved;
                }
                if self.try_swap(l, nd, left, g.0, g.1, g.2) {
                    return Tried::Swapped;
                }
            }
        }
        Tried::Failed
    }
}

/// Whether a pass made the nets shorter by too little for another: by less than a hundredth.
pub open spec fn gains_little(before: int, now: int) -> bool {
    before != 0 && 100 * (before - now) < before
}

/// Whether a pass made the nets shorter by too little for another.
pub fn gained_little(before: i64, now: i64) -> (r: bool)
    requires
        before >= 0,
        now >= 0,
    ensures
        r == gains_little(before as int, now as int),
{
    before != 0 && 100 * (before as i128 - now as i128) < before as i128
}

} // verus!
