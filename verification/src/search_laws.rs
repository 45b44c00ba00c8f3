//! What the search of a cell reaches: which rows its window has, and which positions it tries.

use vstd::prelude::*;
use crate::arith::{dist, imax};
use crate::search::{rank_less, Candidate, Scan, ScanRank, Side, Walk};

verus! {

// ── positions ────────────────────────────────────────────────────────────────────────────────

proof fn lemma_either<T>(a: Seq<T>, b: Seq<T>, c: T)
    ensures
        a.contains(c) || b.contains(c) ==> (a + b).contains(c),
{
    let s = a + b;
    if a.contains(c) {
        let k = choose|k: int| 0 <= k < a.len() && a[k] == c;
        assert(s[k] == c);
    }
    if b.contains(c) {
        let k = choose|k: int| 0 <= k < b.len() && b[k] == c;
        assert(s[a.len() + k] == c);
    }
}

proof fn lemma_row_scan(s: Scan, k: int, from: int, dx: int)
    requires
        from <= dx <= s.dx_hi,
    ensures
        s.row_scan(k, from).contains(s.cand(1, k, dx)),
    decreases s.dx_hi - from + 1,
{
    let head = seq![s.cand(1, k, from)];
    if from < dx {
        lemma_row_scan(s, k, from + 1, dx);
    } else {
        assert(head[0] == s.cand(1, k, dx));
        assert(head.contains(s.cand(1, k, dx)));
    }
    lemma_either(head, s.row_scan(k, from + 1), s.cand(1, k, dx));
}

/// A full scan tries every column within reach in every row of the window.
pub proof fn law_full_scan_tries_every_position(s: Scan, from: int, k: int, dx: int)
    requires
        0 <= from <= k < s.rows.len(),
        s.dx_lo <= dx <= s.dx_hi,
    ensures
        s.full_from(from).contains(Candidate { x: (s.x + dx) as i32, y: s.rows[k], rank: ScanRank { window: 1, row_pos: k as usize, dx: dx as i32 } }),
    decreases s.rows.len() - from,
{
    if from < k {
        law_full_scan_tries_every_position(s, from + 1, k, dx);
    } else {
        lemma_row_scan(s, k, s.dx_lo, dx);
    }
    lemma_either(s.row_scan(from, s.dx_lo), s.full_from(from + 1), s.cand(1, k, dx));
}

proof fn lemma_wave_from(s: Scan, d: int, from: int, k: int, dx: int)
    requires
        0 <= from <= k < s.rows.len(),
        s.dx_lo <= dx <= s.dx_hi,
        s.dx_lo <= 0 <= s.dx_hi,
        dist(dx, 0) + dist(s.rows[k] as int, s.y) == d,
    ensures
        s.wave_from(d, from).contains(s.cand(0, k, dx)),
    decreases s.rows.len() - from,
{
    if from < k {
        lemma_wave_from(s, d, from + 1, k, dx);
    } else {
        let rem = d - dist(s.rows[k] as int, s.y);
        let a = if -rem >= s.dx_lo { seq![s.cand(0, k, -rem)] } else { Seq::empty() };
        let b = if 0 < rem <= s.dx_hi { seq![s.cand(0, k, rem)] } else { Seq::empty() };
        if dx <= 0 {
            assert(a[0] == s.cand(0, k, dx));
            assert(a.contains(s.cand(0, k, dx)));
        } else {
            assert(b[0] == s.cand(0, k, dx));
            assert(b.contains(s.cand(0, k, dx)));
        }
        lemma_either(a, b, s.cand(0, k, dx));
    }
    lemma_either(s.row_wave(d, from), s.wave_from(d, from + 1), s.cand(0, k, dx));
}

proof fn lemma_max_dy(s: Scan, n: int, k: int)
    requires
        0 <= k < n <= s.rows.len(),
    ensures
        dist(s.rows[k] as int, s.y) <= s.max_dy(n),
    decreases n,
{
    if k < n - 1 {
        lemma_max_dy(s, n - 1, k);
    }
}

/// The wavefronts try every column within reach in every row of the window, as long as no displacement up to it is
/// given up.
pub proof fn law_waves_try_every_position(s: Scan, prune: spec_fn(int) -> bool, from: int, k: int, dx: int)
    requires
        0 <= k < s.rows.len(),
        s.dx_lo <= dx <= s.dx_hi,
        s.dx_lo <= 0 <= s.dx_hi,
        0 <= from <= dist(dx, 0) + dist(s.rows[k] as int, s.y),
        forall|d: int| from <= d <= dist(dx, 0) + dist(s.rows[k] as int, s.y) ==> !#[trigger] prune(d),
    ensures
        s.waves(prune, from).contains(Candidate { x: (s.x + dx) as i32, y: s.rows[k], rank: ScanRank { window: 0, row_pos: k as usize, dx: dx as i32 } }),
    decreases dist(dx, 0) + dist(s.rows[k] as int, s.y) - from,
{
    let d = dist(dx, 0) + dist(s.rows[k] as int, s.y);
    lemma_max_dy(s, s.rows.len() as int, k);
    assert(!prune(from));
    if from < d {
        law_waves_try_every_position(s, prune, from + 1, k, dx);
    } else {
        lemma_wave_from(s, d, 0, k, dx);
    }
    lemma_either(s.wave_from(from, 0), s.waves(prune, from + 1), s.cand(0, k, dx));
}

/// Of two ranks the first window comes first, then the earlier row of the window, then the position further left.
pub proof fn law_ranks_order_windows_rows_columns(a: ScanRank, b: ScanRank)
    ensures
        a.window < b.window ==> rank_less(a, b),
        a.window == b.window && a.row_pos < b.row_pos ==> rank_less(a, b),
        a.window == b.window && a.row_pos == b.row_pos && a.dx < b.dx ==> rank_less(a, b),
        !(rank_less(a, b) && rank_less(b, a)),
        !rank_less(a, a),
{
}

// ── rows ─────────────────────────────────────────────────────────────────────────────────────

/// What one side of a vertical walk has found after its steps, in direction `dir`: the usable rows among those it
/// passed, in order, none of the rows passed being a wall.
spec fn side_ok(w: Walk, dir: int, s: Side) -> bool {
    &&& 0 <= s.step
    &&& s.step <= imax(imax(w.max_scan, w.extended_cap), 0)
    &&& forall|q: int| 1 <= q <= s.step ==> !#[trigger] w.wall(w.seed + dir * q)
    &&& forall|i: int| 0 <= i < s.found.len() ==> passed(w, dir, s.step, #[trigger] s.found[i] as int)
    &&& forall|q: int| 1 <= q <= s.step && (w.usable)(w.seed + dir * q) ==> #[trigger] has_row(s.found, w.seed + dir * q)
    &&& forall|i: int, j: int| 0 <= i < j < s.found.len() ==> dist(#[trigger] s.found[i] as int, w.seed) < dist(#[trigger] s.found[j] as int, w.seed)
}

/// Whether a row is a usable one among the first `n` in direction `dir`.
spec fn passed(w: Walk, dir: int, n: int, r: int) -> bool {
    (w.usable)(r) && 1 <= dir * (r - w.seed) <= n
}

/// Whether a list has a row.
pub open spec fn has_row(rows: Seq<i32>, r: int) -> bool {
    exists|i: int| 0 <= i < rows.len() && #[trigger] rows[i] == r
}

proof fn lemma_step(w: Walk, dir: int, s: Side, o: Side)
    requires
        dir == 1 || dir == -1,
        side_ok(w, dir, s),
        side_ok(w, -dir, o),
        s.cap <= imax(w.max_scan, w.extended_cap),
        o.cap <= imax(w.max_scan, w.extended_cap),
        forall|r: int| !#[trigger] w.wall(r) ==> i32::MIN <= r <= i32::MAX,
    ensures
        side_ok(w, dir, w.step(dir, s, o).0),
        side_ok(w, -dir, w.step(dir, s, o).1),
        w.step(dir, s, o).0.cap <= imax(w.max_scan, w.extended_cap),
        w.step(dir, s, o).1.cap <= imax(w.max_scan, w.extended_cap),
{
    let (t, u) = w.step(dir, s, o);
    let n = s.step + 1;
    let r = w.seed + dir * n;
    if t.step == n {
        assert(!w.wall(r));
        assert(dir * n == n || dir * n == -n) by (nonlinear_arith)
            requires dir == 1 || dir == -1;
        assert(dir * (r - w.seed) == n) by (nonlinear_arith)
            requires r - w.seed == dir * n, dir == 1 || dir == -1;
        assert forall|q: int| 1 <= q <= t.step implies !#[trigger] w.wall(w.seed + dir * q) by {
            if q < n {
                assert(!w.wall(w.seed + dir * q));
            }
        }
        assert forall|i: int| 0 <= i < t.found.len() implies passed(w, dir, t.step, #[trigger] t.found[i] as int) by {
            if i < s.found.len() {
                assert(t.found[i] == s.found[i]);
                assert(passed(w, dir, s.step, s.found[i] as int));
            }
        }
        assert forall|q: int| 1 <= q <= t.step && (w.usable)(w.seed + dir * q) implies #[trigger] has_row(t.found, w.seed + dir * q) by {
            if q < n {
                assert(has_row(s.found, w.seed + dir * q));
                let i = choose|i: int| 0 <= i < s.found.len() && #[trigger] s.found[i] == w.seed + dir * q;
                assert(t.found[i] == w.seed + dir * q);
            } else {
                assert(t.found[s.found.len() as int] == r);
            }
        }
        assert forall|i: int, j: int| 0 <= i < j < t.found.len() implies dist(#[trigger] t.found[i] as int, w.seed) < dist(#[trigger] t.found[j] as int, w.seed) by {
            assert(t.found[i] == s.found[i]);
            assert(passed(w, dir, s.step, s.found[i] as int));
            lemma_distance(w, dir, s.found[i] as int);
            if j < s.found.len() {
                assert(t.found[j] == s.found[j]);
            } else {
                lemma_distance(w, dir, r);
            }
        }
    }
}

proof fn lemma_distance(w: Walk, dir: int, r: int)
    requires
        dir == 1 || dir == -1,
        dir * (r - w.seed) >= 1,
    ensures
        dist(r, w.seed) == dir * (r - w.seed),
{
    if dir == 1 {
        assert(dir * (r - w.seed) == r - w.seed) by (nonlinear_arith)
            requires dir == 1;
    } else {
        assert(dir * (r - w.seed) == w.seed - r) by (nonlinear_arith)
            requires dir == -1;
    }
}

proof fn lemma_rounds(w: Walk, n: nat)
    requires
        forall|r: int| !#[trigger] w.wall(r) ==> i32::MIN <= r <= i32::MAX,
    ensures
        side_ok(w, 1, w.after(n).0),
        side_ok(w, -1, w.after(n).1),
        w.after(n).0.cap <= imax(w.max_scan, w.extended_cap),
        w.after(n).1.cap <= imax(w.max_scan, w.extended_cap),
    decreases n,
{
    if n > 0 {
        lemma_rounds(w, (n - 1) as nat);
        let (b, a) = w.after((n - 1) as nat);
        lemma_step(w, 1, b, a);
        let (b1, a1) = w.step(1, b, a);
        lemma_step(w, -1, a1, b1);
    }
}

/// The rows of a window can host the cell, lie no further away than the walk may go, with no wall between, and are all
/// different. A usable row at the seed is the first. Any usable row between the seed and a row of the window is in the
/// window too.
pub proof fn law_window_rows_are_usable_and_near(w: Walk, rows: Seq<i32>, i: int)
    requires
        w.gives(rows),
        forall|r: int| !#[trigger] w.wall(r) ==> i32::MIN <= r <= i32::MAX,
        i32::MIN <= w.seed <= i32::MAX,
        0 <= i < rows.len(),
    ensures
        (w.usable)(rows[i] as int),
        dist(rows[i] as int, w.seed) <= imax(imax(w.max_scan, w.extended_cap), 0),
        forall|r: int| (w.seed < r <= rows[i] || rows[i] <= r < w.seed) ==> !#[trigger] w.wall(r),
        forall|r: int| (w.seed <= r <= rows[i] || rows[i] <= r <= w.seed) && #[trigger] (w.usable)(r) ==> has_row(rows, r),
        (w.usable)(w.seed) ==> rows[0] == w.seed,
        forall|j: int| 0 <= j < i ==> #[trigger] rows[j] != rows[i],
{
    let n = choose|n: nat| {
        let (b, a) = #[trigger] w.after(n);
        b.closed && a.closed && rows == w.rows(b, a)
    };
    let (b, a) = w.after(n);
    lemma_rounds(w, n);
    let head = if (w.usable)(w.seed) { seq![w.seed as i32] } else { Seq::<i32>::empty() };
    let h = head.len() as int;
    assert(rows == head + b.found + a.found);
    let m = h + b.found.len();
    let r0 = rows[i] as int;
    // Where a row of the window comes from.
    assert forall|j: int| 0 <= j < rows.len() implies (if j < h { rows[j] == w.seed } else if j < m {
        rows[j] == b.found[j - h] && passed(w, 1, b.step, #[trigger] rows[j] as int)
    } else {
        rows[j] == a.found[j - m] && passed(w, -1, a.step, rows[j] as int)
    }) by {
        if j >= h && j < m {
            assert(passed(w, 1, b.step, b.found[j - h] as int));
        } else if j >= m {
            assert(passed(w, -1, a.step, a.found[j - m] as int));
        }
    }
    assert forall|r: int| (w.seed < r <= r0 || r0 <= r < w.seed) implies !#[trigger] w.wall(r) by {
        if r0 > w.seed {
            assert(passed(w, 1, b.step, rows[i] as int));
            assert(!w.wall(w.seed + 1 * (r - w.seed)));
        } else {
            assert(passed(w, -1, a.step, rows[i] as int));
            assert(!w.wall(w.seed + -1 * (w.seed - r)));
        }
    }
    assert forall|r: int| (w.seed <= r <= r0 || r0 <= r <= w.seed) && #[trigger] (w.usable)(r) implies has_row(rows, r) by {
        if r == w.seed {
            assert(rows[0] == r);
        } else if r > w.seed {
            let q = r - w.seed;
            assert(has_row(b.found, w.seed + 1 * q));
            let k = choose|k: int| 0 <= k < b.found.len() && #[trigger] b.found[k] == w.seed + 1 * q;
            assert(rows[h + k] == b.found[k]);
        } else {
            let q = w.seed - r;
            assert(has_row(a.found, w.seed + -1 * q));
            let k = choose|k: int| 0 <= k < a.found.len() && #[trigger] a.found[k] == w.seed + -1 * q;
            assert(rows[m + k] == a.found[k]);
        }
    }
    assert forall|j: int| 0 <= j < i implies #[trigger] rows[j] != rows[i] by {
        if j >= h && i < m {
            assert(dist(b.found[j - h] as int, w.seed) < dist(b.found[i - h] as int, w.seed));
        } else if j >= m {
            assert(dist(a.found[j - m] as int, w.seed) < dist(a.found[i - m] as int, w.seed));
        }
    }
}

} // verus!
