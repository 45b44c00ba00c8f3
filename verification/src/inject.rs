//! Putting cells where a stage's line says they are.

use vstd::prelude::*;
use crate::land::{all_below, node_in, reachable, Land, Live, St};
use crate::moves::{joins, leaves_all, placed};
use crate::orient::Orient;
use crate::segments::lists;
use crate::text::chars_of;

verus! {

/// Where a line puts a node.
#[derive(Debug, Clone, Copy, PartialEq, Eq)]
pub struct Put {
    pub node: usize,
    pub x: i32,
    pub y: i32,
    pub orient: Orient,
}

/// Why a line cannot be read.
#[derive(Debug, PartialEq, Eq)]
pub enum ReadError {
    /// It has too few fields.
    Record,
    /// An entry has not four parts.
    Cell(Vec<char>),
    BadId,
    BadX,
    BadY,
    BadOrient,
}

// ── splitting ────────────────────────────────────────────────────────────────────────────────

/// Where a separator stands first from `i` on, the end if it does not.
pub open spec fn next_sep(t: Seq<char>, sep: char, i: int) -> int
    decreases t.len() - i,
{
    if i >= t.len() {
        t.len() as int
    } else if t[i] == sep {
        i
    } else {
        next_sep(t, sep, i + 1)
    }
}

/// The parts of a text between separators, from `i` on.
pub open spec fn parts_from(t: Seq<char>, sep: char, i: int) -> Seq<Seq<char>>
    decreases t.len() - i,
{
    let j = next_sep(t, sep, i);
    if 0 <= i <= j < t.len() {
        seq![t.subrange(i, j)] + parts_from(t, sep, j + 1)
    } else {
        seq![t.subrange(i, t.len() as int)]
    }
}

/// The texts of lists of characters.
pub open spec fn char_lists(v: Seq<Vec<char>>) -> Seq<Seq<char>> {
    Seq::new(v.len(), |k: int| v[k]@)
}

/// The parts of a text between separators.
fn split(t: &Vec<char>, sep: char) -> (r: Vec<Vec<char>>)
    ensures
        char_lists(r@) == parts_from(t@, sep, 0),
{
    let mut out: Vec<Vec<char>> = Vec::new();
    let mut part: Vec<char> = Vec::new();
    let mut i: usize = 0;
    let ghost mut from: int = 0;
    let ghost goal = parts_from(t@, sep, 0);
    assert(char_lists(out@) + parts_from(t@, sep, 0) =~= goal);
    while i < t.len()
        invariant
            0 <= from <= i <= t@.len(),
            part@ == t@.subrange(from, i as int),
            next_sep(t@, sep, from) == next_sep(t@, sep, i as int),
            char_lists(out@) + parts_from(t@, sep, from) == goal,
        decreases t@.len() - i,
    {
        let c: char = t[i];
        if c == sep {
            let ghost o0 = out@;
            let ghost p = part@;
            out.push(part);
            part = Vec::new();
            proof {
                assert(char_lists(out@) =~= char_lists(o0).push(p));
                let rest = parts_from(t@, sep, i + 1);
                assert(parts_from(t@, sep, from) == seq![p] + rest);
                assert(char_lists(out@) + rest =~= char_lists(o0) + (seq![p] + rest));
                from = i + 1;
            }
        } else {
            part.push(c);
        }
        i = i + 1;
        proof {
            assert(part@ =~= t@.subrange(from, i as int));
        }
    }
    let ghost o0 = out@;
    let ghost p = part@;
    out.push(part);
    proof {
        assert(parts_from(t@, sep, from) =~= seq![p]);
        assert(char_lists(out@) =~= char_lists(o0) + seq![p]);
    }
    out
}

// ── numbers ──────────────────────────────────────────────────────────────────────────────────

/// The value of a digit.
pub open spec fn digit_of(c: char) -> Option<int> {
    if '0' <= c && c <= '9' { Some(c as int - 48) } else { None }
}

/// The number that the first `n` characters write, if all are digits.
pub open spec fn digits(t: Seq<char>, n: int) -> Option<int>
    decreases n,
{
    if n <= 0 {
        Some(0)
    } else {
        match (digits(t, n - 1), digit_of(t[n - 1])) {
            (Some(v), Some(d)) => Some(10 * v + d),
            _ => None,
        }
    }
}

/// The number that digits write, at least one of them.
pub open spec fn natural(t: Seq<char>) -> Option<int> {
    if t.len() == 0 { None } else { digits(t, t.len() as int) }
}

/// The number that a text writes: digits, with a sign in front or none.
pub open spec fn integer(t: Seq<char>) -> Option<int> {
    if t.len() > 0 && t[0] == '-' {
        match natural(t.subrange(1, t.len() as int)) {
            Some(v) => Some(-v),
            None => None,
        }
    } else if t.len() > 0 && t[0] == '+' {
        natural(t.subrange(1, t.len() as int))
    } else {
        natural(t)
    }
}

/// A number of 32 bits.
pub open spec fn integer32(t: Seq<char>) -> Option<i32> {
    match integer(t) {
        Some(v) => if i32::MIN <= v <= i32::MAX { Some(v as i32) } else { None },
        None => None,
    }
}

/// A node's number: digits, with a plus in front or none.
pub open spec fn index(t: Seq<char>) -> Option<usize> {
    let d = if t.len() > 0 && t[0] == '+' { natural(t.subrange(1, t.len() as int)) } else { natural(t) };
    match d {
        Some(v) => if v <= usize::MAX { Some(v as usize) } else { None },
        None => None,
    }
}

proof fn lemma_digits_none(t: Seq<char>, k: int, n: int)
    requires
        0 <= k <= n <= t.len(),
        digits(t, k) is None,
    ensures
        digits(t, n) is None,
    decreases n,
{
    if k < n {
        lemma_digits_none(t, k, n - 1);
    }
}

proof fn lemma_digits_grow(t: Seq<char>, k: int, n: int)
    requires
        0 <= k <= n <= t.len(),
        digits(t, n) is Some,
    ensures
        digits(t, k) is Some,
        0 <= digits(t, k)->Some_0 <= digits(t, n)->Some_0,
    decreases n,
{
    if k < n {
        lemma_digits_grow(t, k, n - 1);
    } else if k > 0 {
        lemma_digits_grow(t, k - 1, k - 1);
    }
}

/// The number that digits from `from` on write, if there are any and it is at most 2^64 - 1.
fn read_natural(t: &Vec<char>, from: usize) -> (r: Option<u64>)
    requires
        from <= t@.len(),
    ensures
        match natural(t@.subrange(from as int, t@.len() as int)) {
            Some(v) => if v <= u64::MAX { r == Some(v as u64) } else { r is None },
            None => r is None,
        },
        natural(t@.subrange(from as int, t@.len() as int)) matches Some(v) ==> v >= 0,
{
    let ghost s = t@.subrange(from as int, t@.len() as int);
    proof {
        if digits(s, s.len() as int) is Some {
            lemma_digits_grow(s, 0, s.len() as int);
        }
    }
    let n: usize = t.len();
    if from == n {
        return None;
    }
    let mut v: u64 = 0;
    let mut i: usize = from;
    while i < n
        invariant
            from <= i <= n,
            from < n,
            n == t@.len(),
            s == t@.subrange(from as int, n as int),
            digits(s, i - from) == Some(v as int),
        decreases n - i,
    {
        let c: char = t[i];
        assert(s[i - from] == c);
        if !('0' <= c && c <= '9') {
            proof {
                lemma_digits_none(s, i - from + 1, s.len() as int);
            }
            return None;
        }
        let d: u64 = c as u64 - 48;
        let next: u128 = 10 * (v as u128) + d as u128;
        if next > u64::MAX as u128 {
            proof {
                if digits(s, s.len() as int) is Some {
                    lemma_digits_grow(s, i - from + 1, s.len() as int);
                }
            }
            return None;
        }
        v = next as u64;
        i = i + 1;
    }
    Some(v)
}

fn read_i32(t: &Vec<char>) -> (r: Option<i32>)
    ensures
        r == integer32(t@),
{
    if t.len() > 0 && t[0] == '-' {
        return match read_natural(t, 1) {
            Some(v) => if v <= 0x8000_0000 { Some((-(v as i64)) as i32) } else { None },
            None => None,
        };
    }
    let from: usize = if t.len() > 0 && t[0] == '+' { 1 } else { 0 };
    assert(t@.subrange(0, t@.len() as int) =~= t@);
    match read_natural(t, from) {
        Some(v) => if v <= 0x7fff_ffff { Some(v as i32) } else { None },
        None => None,
    }
}

fn read_index(t: &Vec<char>) -> (r: Option<usize>)
    ensures
        r == index(t@),
{
    let from: usize = if t.len() > 0 && t[0] == '+' { 1 } else { 0 };
    assert(t@.subrange(0, t@.len() as int) =~= t@);
    match read_natural(t, from) {
        Some(v) => if v <= usize::MAX as u64 { Some(v as usize) } else { None },
        None => None,
    }
}

// ── reading ──────────────────────────────────────────────────────────────────────────────────

/// What is wrong with an entry, if anything: it has a node's number, place and orientation between colons.
pub open spec fn entry_fault(t: Seq<char>, e: ReadError) -> bool {
    let p = parts_from(t, ':', 0);
    if p.len() != 4 {
        e matches ReadError::Cell(c) && c@ == t
    } else if index(p[0]) is None {
        e == ReadError::BadId
    } else if integer32(p[1]) is None {
        e == ReadError::BadX
    } else if integer32(p[2]) is None {
        e == ReadError::BadY
    } else {
        Orient::of_text(p[3]) is None && e == ReadError::BadOrient
    }
}

/// Whether an entry can be read.
pub open spec fn entry_ok(t: Seq<char>) -> bool {
    let p = parts_from(t, ':', 0);
    p.len() == 4 && index(p[0]) is Some && integer32(p[1]) is Some && integer32(p[2]) is Some && Orient::of_text(p[3]) is Some
}

/// What an entry says, if it can be read.
pub open spec fn entry(t: Seq<char>) -> Put {
    let p = parts_from(t, ':', 0);
    Put { node: index(p[0])->Some_0, x: integer32(p[1])->Some_0, y: integer32(p[2])->Some_0, orient: Orient::of_text(p[3])->Some_0 }
}

/// What the first `n` entries say; empty ones say nothing.
pub open spec fn entries(v: Seq<Seq<char>>, n: int) -> Seq<Put>
    decreases n,
{
    if n <= 0 {
        Seq::empty()
    } else if v[n - 1].len() == 0 {
        entries(v, n - 1)
    } else {
        entries(v, n - 1).push(entry(v[n - 1]))
    }
}

/// Whether the first `n` entries can be read.
pub open spec fn entries_ok(v: Seq<Seq<char>>, n: int) -> bool {
    forall|k: int| 0 <= k < n && (#[trigger] v[k]).len() > 0 ==> entry_ok(v[k])
}

/// The entries of a line: the parts of its sixth field between semicolons.
pub open spec fn entries_of(line: Seq<char>) -> Seq<Seq<char>> {
    parts_from(parts_from(line, '|', 0)[5], ';', 0)
}

fn is_word(t: &Vec<char>, w: &str) -> (r: bool)
    ensures
        r == (t@ == w@),
{
    let c = chars_of(w);
    if c.len() != t.len() {
        return false;
    }
    let mut k: usize = 0;
    while k < t.len()
        invariant
            c@ == w@,
            c@.len() == t@.len(),
            k <= t@.len(),
            forall|j: int| 0 <= j < k ==> #[trigger] t@[j] == c@[j],
        decreases t@.len() - k,
    {
        if t[k] != c[k] {
            return false;
        }
        k = k + 1;
    }
    assert(t@ =~= w@);
    true
}

fn read_orient(t: &Vec<char>) -> (r: Option<Orient>)
    ensures
        r == Orient::of_text(t@),
{
    if is_word(t, "R0") {
        Some(Orient::R0)
    } else if is_word(t, "R90") {
        Some(Orient::R90)
    } else if is_word(t, "R180") {
        Some(Orient::R180)
    } else if is_word(t, "R270") {
        Some(Orient::R270)
    } else if is_word(t, "MY") {
        Some(Orient::MY)
    } else if is_word(t, "MYR90") {
        Some(Orient::MYR90)
    } else if is_word(t, "MX") {
        Some(Orient::MX)
    } else if is_word(t, "MXR90") {
        Some(Orient::MXR90)
    } else {
        None
    }
}

fn read_entry(t: &Vec<char>) -> (r: Result<Put, ReadError>)
    ensures
        r is Ok <==> entry_ok(t@),
        r matches Ok(p) ==> p == entry(t@),
        r matches Err(e) ==> entry_fault(t@, e),
{
    let p = split(t, ':');
    let ghost q = parts_from(t@, ':', 0);
    assert(char_lists(p@) == q);
    assert(p@.len() == q.len());
    if p.len() != 4 {
        let mut c: Vec<char> = Vec::new();
        let mut k: usize = 0;
        while k < t.len()
            invariant
                k <= t@.len(),
                c@ == t@.subrange(0, k as int),
            decreases t@.len() - k,
        {
            c.push(t[k]);
            k = k + 1;
            assert(c@ =~= t@.subrange(0, k as int));
        }
        assert(c@ =~= t@);
        return Err(ReadError::Cell(c));
    }
    assert(p@[0]@ == q[0] && p@[1]@ == q[1] && p@[2]@ == q[2] && p@[3]@ == q[3]) by {
        assert(char_lists(p@)[0] == q[0]);
        assert(char_lists(p@)[1] == q[1]);
        assert(char_lists(p@)[2] == q[2]);
        assert(char_lists(p@)[3] == q[3]);
    }
    let node: usize = match read_index(&p[0]) {
        Some(v) => v,
        None => return Err(ReadError::BadId),
    };
    let x: i32 = match read_i32(&p[1]) {
        Some(v) => v,
        None => return Err(ReadError::BadX),
    };
    let y: i32 = match read_i32(&p[2]) {
        Some(v) => v,
        None => return Err(ReadError::BadY),
    };
    match read_orient(&p[3]) {
        Some(orient) => Ok(Put { node, x, y, orient }),
        None => Err(ReadError::BadOrient),
    }
}

/// Where a stage's line puts nodes.
pub fn read_cells(line: &str) -> (r: Result<Vec<Put>, ReadError>)
    ensures
        r matches Ok(v) ==> parts_from(line@, '|', 0).len() > 5 && entries_ok(entries_of(line@), entries_of(line@).len() as int)
            && v@ == entries(entries_of(line@), entries_of(line@).len() as int),
        r matches Err(e) ==> if parts_from(line@, '|', 0).len() <= 5 {
            e == ReadError::Record
        } else {
            exists|k: int| 0 <= k < entries_of(line@).len() && entries_ok(entries_of(line@), k) && (#[trigger] entries_of(line@)[k]).len() > 0
                && entry_fault(entries_of(line@)[k], e)
        },
{
    let chars = chars_of(line);
    let fields = split(&chars, '|');
    assert(char_lists(fields@).len() == fields@.len());
    if fields.len() <= 5 {
        return Err(ReadError::Record);
    }
    assert(char_lists(fields@)[5] == fields@[5]@);
    let list = split(&fields[5], ';');
    let ghost v = entries_of(line@);
    assert(char_lists(list@) == v);
    let mut out: Vec<Put> = Vec::new();
    let mut k: usize = 0;
    while k < list.len()
        invariant
            v == entries_of(line@),
            parts_from(line@, '|', 0).len() > 5,
            char_lists(list@) == v,
            k <= list@.len(),
            entries_ok(v, k as int),
            out@ == entries(v, k as int),
        decreases list@.len() - k,
    {
        assert(char_lists(list@)[k as int] == list@[k as int]@);
        if list[k].len() > 0 {
            match read_entry(&list[k]) {
                Ok(p) => {
                    out.push(p);
                },
                Err(e) => {
                    assert(v[k as int].len() > 0 && entry_fault(v[k as int], e));
                    return Err(e);
                },
            }
        }
        k = k + 1;
    }
    Ok(out)
}

// ── putting ──────────────────────────────────────────────────────────────────────────────────

impl Land {
    /// The state after the first `n` nodes of a list gave up their squares and left their segments.
    pub open spec fn taken_out(&self, s: St, v: Seq<Put>, n: int) -> St
        decreases n,
    {
        if n <= 0 {
            s
        } else {
            let t = self.lifted(self.taken_out(s, v, n - 1), v[n - 1].node as int);
            let home = t.homes[v[n - 1].node as int];
            leaves_all(t, v[n - 1].node, home, home.len() as int)
        }
    }

    /// The state after the first `n` nodes of a list were put at their places and turned.
    pub open spec fn put_down(&self, s: St, v: Seq<Put>, n: int) -> St
        decreases n,
    {
        if n <= 0 {
            s
        } else {
            let p = v[n - 1];
            self.turned(placed(self.put_down(s, v, n - 1), p.node, p.x, p.y), p.node as int, p.orient)
        }
    }

    /// The first segment from the `k`th of a row on that holds `x`.
    pub open spec fn seg_before_end(&self, row: int, x: int, k: int) -> Option<usize>
        decreases self.segs_in_row@[row]@.len() - k,
    {
        let list = self.segs_in_row@[row]@;
        if k >= list.len() {
            None
        } else if self.segments@[list[k] as int].min_x <= x < self.segments@[list[k] as int].max_x {
            Some(list[k])
        } else {
            self.seg_before_end(row, x, k + 1)
        }
    }

    /// The state after a node joined the segments that hold it in the rows from `a` to before `b`.
    pub open spec fn seated_in(&self, s: St, nd: usize, a: int, b: int) -> St
        decreases b - a,
    {
        if b <= a {
            s
        } else {
            let t = self.seated_in(s, nd, a, b - 1);
            match self.seg_before_end(b - 1, t.nodes[nd as int].left as int, 0) {
                Some(g) => joins(t, nd, g),
                None => t,
            }
        }
    }

    /// The row past the last that a node covers.
    pub open spec fn rows_end(&self, s: St, nd: usize) -> int {
        let n = s.nodes[nd as int];
        let h = self.arch.rows_high(n.height as int);
        crate::arith::imin(self.arch.closest(n.bottom as int) + crate::arith::imax(h, 1), self.arch.rows@.len() as int)
    }

    /// The state after a node joined its segments and took its squares.
    pub open spec fn entered(&self, s: St, nd: usize) -> St {
        let t = self.seated_in(s, nd, self.arch.closest(s.nodes[nd as int].bottom as int), self.rows_end(s, nd));
        self.painted_at(t, nd as int, if self.grid.row_count > 0 { self.grid.snap_down(s.nodes[nd as int].bottom as int) } else { 0 })
    }

    /// The state after the first `n` nodes of a list joined their segments and took their squares.
    pub open spec fn all_entered(&self, s: St, v: Seq<Put>, n: int) -> St
        decreases n,
    {
        if n <= 0 { s } else { self.entered(self.all_entered(s, v, n - 1), v[n - 1].node) }
    }

    /// The state after the nodes of a list were put where it says.
    pub open spec fn injected(&self, s: St, v: Seq<Put>) -> St {
        let n = v.len() as int;
        self.all_entered(self.put_down(self.taken_out(s, v, n), v, n), v, n)
    }

    /// The list puts nodes there are at places that can be reached.
    pub open spec fn puts_ok(&self, v: Seq<Put>) -> bool {
        forall|k: int| 0 <= k < v.len() ==> (#[trigger] v[k]).node < self.count() && reachable(v[k].x as int) && reachable(v[k].y as int)
    }
}

impl Live {
    /// Let a node join the segments that hold it and take its squares.
    fn enter(&mut self, l: &Land, nd: usize)
        requires
            l.wf(),
            l.ok(old(self)@),
            nd < l.count(),
        ensures
            l.ok(final(self)@),
            final(self)@ == l.entered(old(self)@, nd),
    {
        let ghost s = self@;
        assert(node_in(s.nodes[nd as int]));
        assert(l.arch.rows@[0].ok());
        let x: i32 = self.nodes[nd].left;
        let y: i32 = self.nodes[nd].bottom;
        let h: i32 = l.arch.height_in_rows(self.nodes[nd].height);
        let high: usize = if h < 1 { 1 } else { h as usize };
        let r0: usize = l.arch.find_closest_row(y);
        let count: usize = l.arch.rows.len();
        let end: usize = if r0 + high < count { r0 + high } else { count };
        let mut r: usize = r0;
        while r < end
            invariant
                l.wf(),
                l.ok(self@),
                nd < l.count(),
                r0 <= r <= end,
                end <= l.arch.rows@.len(),
                s.nodes[nd as int].left == x,
                self@.nodes == s.nodes,
                self@ == l.seated_in(s, nd, r0 as int, r as int),
            decreases end - r,
        {
            let list = &l.segs_in_row[r];
            proof {
                assert(lists(l.segs_in_row@)[r as int] == list@);
                assert(all_below(list@, l.segments@.len() as int));
            }
            let mut k: usize = 0;
            while k < list.len() && !(l.segments[list[k]].min_x <= x && x < l.segments[list[k]].max_x)
                invariant
                    r < l.segs_in_row@.len(),
                    list@ == l.segs_in_row@[r as int]@,
                    all_below(list@, l.segments@.len() as int),
                    k <= list@.len(),
                    l.seg_before_end(r as int, x as int, 0) == l.seg_before_end(r as int, x as int, k as int),
                decreases list@.len() - k,
            {
                k = k + 1;
            }
            if k < list.len() {
                self.add_cell_to_segment(l, nd, list[k]);
            }
            r = r + 1;
        }
        let gy: i64 = match l.grid.grid_snap_down_y(y) {
            Some(g) => g as i64,
            None => 0,
        };
        self.paint_at(l, nd, gy);
    }

    /// Put nodes where a list says: out of their segments, moved, turned, and into the segments that hold
    /// them.
    pub fn inject_cells(&mut self, l: &Land, v: &Vec<Put>)
        requires
            l.wf(),
            l.ok(old(self)@),
            l.puts_ok(v@),
        ensures
            l.ok(final(self)@),
            final(self)@ == l.injected(old(self)@, v@),
    {
        let ghost s = self@;
        let mut k: usize = 0;
        while k < v.len()
            invariant
                l.wf(),
                l.ok(self@),
                l.puts_ok(v@),
                k <= v@.len(),
                self@ == l.taken_out(s, v@, k as int),
            decreases v@.len() - k,
        {
            let nd: usize = v[k].node;
            assert(v@[k as int].node < l.count());
            self.erase_from_grid(l, nd);
            let home = crate::moves::copy_list(&self.cell_segs[nd]);
            proof {
                assert(self@.homes[nd as int] == home@);
                assert(all_below(self@.homes[nd as int], l.segments@.len() as int));
            }
            self.leave_all(l, nd, &home);
            k = k + 1;
        }
        let ghost a = self@;
        let mut k: usize = 0;
        while k < v.len()
            invariant
                l.wf(),
                l.ok(self@),
                l.puts_ok(v@),
                k <= v@.len(),
                self@ == l.put_down(a, v@, k as int),
            decreases v@.len() - k,
        {
            let p: Put = v[k];
            assert(v@[k as int].node < l.count() && reachable(p.x as int) && reachable(p.y as int));
            self.put(l, p.node, p.x, p.y);
            self.adjust_orient(l, p.node, p.orient);
            k = k + 1;
        }
        let ghost b = self@;
        let mut k: usize = 0;
        while k < v.len()
            invariant
                l.wf(),
                l.ok(self@),
                l.puts_ok(v@),
                k <= v@.len(),
                self@ == l.all_entered(b, v@, k as int),
            decreases v@.len() - k,
        {
            let nd: usize = v[k].node;
            assert(v@[k as int].node < l.count());
            self.enter(l, nd);
            k = k + 1;
        }
    }
}

} // verus!
