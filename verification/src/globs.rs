//! Glob patterns over names, and names that no instance has yet.

use vstd::prelude::*;
use crate::text::{append_decimal, chars_of, comes_before, decimal, decimal_injective, lemma_text_less_antisym, lemma_text_less_total, lemma_text_less_trans, same_text, text_less};

verus! {

// ── patterns ─────────────────────────────────────────────────────────────────────────────────

/// Whether `c` lies between two characters, in either order.
pub open spec fn between(a: char, b: char, c: char) -> bool {
    (a as int <= c as int && c as int <= b as int) || (b as int <= c as int && c as int <= a as int)
}

/// Whether the characters and ranges of a set from `i` on hold `c`.
pub open spec fn set_holds(set: Seq<char>, c: char, i: int) -> bool
    decreases set.len() - i,
{
    if i >= set.len() {
        false
    } else if i + 2 < set.len() && set[i + 1] == '-' {
        between(set[i], set[i + 2], c) || set_holds(set, c, i + 3)
    } else {
        c == set[i] || set_holds(set, c, i + 1)
    }
}

/// The first `]` from `i` on, the length where there is none.
pub open spec fn bracket_end(p: Seq<char>, i: int) -> int
    decreases p.len() - i,
{
    if i >= p.len() || p[i] == ']' { i } else { bracket_end(p, i + 1) }
}

/// Whether a pattern matches a text: `*` any run, `?` any character, `[..]` one of a set with
/// ranges, `\\x` the character `x`, anything else itself.
pub open spec fn glob(p: Seq<char>, s: Seq<char>) -> bool
    decreases p.len(), s.len(),
{
    if p.len() == 0 {
        s.len() == 0
    } else if p[0] == '*' {
        glob(p.skip(1), s) || (s.len() > 0 && glob(p, s.skip(1)))
    } else if p[0] == '?' {
        s.len() > 0 && glob(p.skip(1), s.skip(1))
    } else if p[0] == '[' {
        let end = bracket_end(p, 0);
        1 <= end < p.len() && s.len() > 0 && set_holds(p.subrange(1, end), s[0], 0) && glob(p.skip(end + 1), s.skip(1))
    } else if p[0] == '\\' && p.len() > 1 {
        s.len() > 0 && s[0] == p[1] && glob(p.skip(2), s.skip(1))
    } else {
        s.len() > 0 && s[0] == p[0] && glob(p.skip(1), s.skip(1))
    }
}

/// The number of a character.
fn code(c: char) -> (r: u32)
    ensures
        r == c as int,
{
    c as u32
}

/// Does a set hold a character?
fn in_set(p: &Vec<char>, lo: usize, hi: usize, c: char) -> (r: bool)
    requires
        lo <= hi <= p@.len(),
    ensures
        r == set_holds(p@.subrange(lo as int, hi as int), c, 0),
{
    let ghost set = p@.subrange(lo as int, hi as int);
    let n: usize = hi - lo;
    let mut hit: bool = false;
    let mut i: usize = 0;
    while i < n
        invariant
            lo <= hi <= p@.len(),
            n == hi - lo,
            set == p@.subrange(lo as int, hi as int),
            i <= n,
            (hit || set_holds(set, c, i as int)) == set_holds(set, c, 0),
        decreases n - i,
    {
        let a: char = p[lo + i];
        assert(a == set[i as int]);
        if n - i > 2 && p[lo + i + 1] == '-' {
            let b: char = p[lo + i + 2];
            assert(b == set[i + 2] && set[i + 1] == '-');
            let x: u32 = code(a);
            let y: u32 = code(b);
            let z: u32 = code(c);
            if (x <= z && z <= y) || (y <= z && z <= x) {
                hit = true;
            }
            i = i + 3;
        } else {
            if n - i > 2 {
                assert(set[i + 1] != '-');
            }
            if c == a {
                hit = true;
            }
            i = i + 1;
        }
    }
    hit
}

fn glob_at(p: &Vec<char>, pi: usize, s: &Vec<char>, si: usize) -> (r: bool)
    requires
        pi <= p@.len(),
        si <= s@.len(),
    ensures
        r == glob(p@.skip(pi as int), s@.skip(si as int)),
    decreases p@.len() - pi,
{
    let ghost pp = p@.skip(pi as int);
    let ghost ss = s@.skip(si as int);
    if pi == p.len() {
        return si == s.len();
    }
    let c: char = p[pi];
    assert(pp[0] == c);
    assert(pp.skip(1) =~= p@.skip(pi + 1));
    if si < s.len() {
        assert(ss[0] == s@[si as int]);
        assert(ss.skip(1) =~= s@.skip(si + 1));
    }
    if c == '*' {
        let next: usize = pi + 1;
        let mut i: usize = si;
        assert(ss.skip(0) =~= ss);
        loop
            invariant
                pi < p@.len(),
                next == pi + 1,
                si <= i <= s@.len(),
                pp == p@.skip(pi as int),
                ss == s@.skip(si as int),
                pp[0] == '*',
                pp.skip(1) == p@.skip(pi + 1),
                glob(pp, ss) == glob(pp, s@.skip(i as int)),
            decreases s@.len() - i,
        {
            if glob_at(p, next, s, i) {
                return true;
            }
            if i == s.len() {
                return false;
            }
            assert(s@.skip(i as int).skip(1) =~= s@.skip(i + 1));
            i = i + 1;
        }
    }
    if c == '?' {
        return si < s.len() && glob_at(p, pi + 1, s, si + 1);
    }
    if c == '[' {
        let mut end: usize = pi;
        while end < p.len() && p[end] != ']'
            invariant
                pi <= end <= p@.len(),
                pp == p@.skip(pi as int),
                bracket_end(pp, end - pi) == bracket_end(pp, 0),
            decreases p@.len() - end,
        {
            assert(pp[end - pi] == p@[end as int]);
            end = end + 1;
        }
        if end < p.len() {
            assert(pp[end - pi] == p@[end as int]);
        }
        assert(bracket_end(pp, 0) == end - pi);
        if end == p.len() || si == s.len() {
            return false;
        }
        assert(end != pi);
        assert(pp.subrange(1, end - pi) =~= p@.subrange(pi + 1, end as int));
        assert(pp.skip(end - pi + 1) =~= p@.skip(end + 1));
        return in_set(p, pi + 1, end, s[si]) && glob_at(p, end + 1, s, si + 1);
    }
    if c == '\\' && p.len() - pi > 1 {
        assert(pp[1] == p@[pi + 1]);
        assert(pp.skip(2) =~= p@.skip(pi + 2));
        return si < s.len() && s[si] == p[pi + 1] && glob_at(p, pi + 2, s, si + 1);
    }
    si < s.len() && s[si] == c && glob_at(p, pi + 1, s, si + 1)
}

/// Does a glob pattern match a text?
pub fn tcl_string_match(pattern: &str, s: &str) -> (r: bool)
    ensures
        r == glob(pattern@, s@),
{
    let p = chars_of(pattern);
    let t = chars_of(s);
    assert(p@.skip(0) =~= p@);
    assert(t@.skip(0) =~= t@);
    glob_at(&p, 0, &t, 0)
}

/// A lone `*` matches every text.
pub proof fn law_star_matches_everything(s: Seq<char>)
    ensures
        glob(seq!['*'], s),
    decreases s.len(),
{
    let p = seq!['*'];
    assert(p.skip(1).len() == 0);
    assert(p[0] == '*');
    if s.len() > 0 {
        law_star_matches_everything(s.skip(1));
    } else {
        assert(glob(p.skip(1), s));
    }
}

/// A character that stands for nothing else.
pub open spec fn is_plain(c: char) -> bool {
    c != '*' && c != '?' && c != '[' && c != '\\'
}

/// A pattern of plain characters matches exactly its own text.
pub proof fn law_plain_pattern_matches_itself(p: Seq<char>, s: Seq<char>)
    requires
        forall|i: int| 0 <= i < p.len() ==> is_plain(#[trigger] p[i]),
    ensures
        glob(p, s) <==> p == s,
    decreases p.len(),
{
    if p.len() == 0 {
        if s.len() == 0 {
            assert(p =~= s);
        }
    } else {
        assert(is_plain(p[0]));
        assert forall|i: int| 0 <= i < p.skip(1).len() implies is_plain(#[trigger] p.skip(1)[i]) by {
            assert(is_plain(p[i + 1]));
        }
        if s.len() > 0 && s[0] == p[0] {
            law_plain_pattern_matches_itself(p.skip(1), s.skip(1));
            if p.skip(1) == s.skip(1) {
                assert(p =~= seq![p[0]] + p.skip(1));
                assert(s =~= seq![s[0]] + s.skip(1));
            }
        }
    }
}

// ── unique names ─────────────────────────────────────────────────────────────────────────────

/// The names taken, and per name how many numbers have been tried for it.
pub struct UniqueNames {
    /// In order, without repetition.
    pub taken: Vec<String>,
    pub ids: Vec<(String, i32)>,
}

/// The texts of a list of names as a set.
pub open spec fn name_set(v: Seq<String>) -> Set<Seq<char>> {
    Set::new(|s: Seq<char>| exists|k: int| 0 <= k < v.len() && (#[trigger] v[k])@ == s)
}

/// The number that the first `n` entries have for a name, 0 without one.
pub open spec fn id_of(v: Seq<(String, i32)>, name: Seq<char>, n: int) -> int
    decreases n,
{
    if n <= 0 {
        0
    } else if v[n - 1].0@ == name {
        v[n - 1].1 as int
    } else {
        id_of(v, name, n - 1)
    }
}

/// A name with a number.
pub open spec fn numbered(name: Seq<char>, k: int) -> Seq<char> {
    name + seq!['_'] + decimal(k as nat)
}

/// The first number that is tried: there is no number 0.
pub open spec fn first_number(id: int) -> int {
    if id > 1 { id } else { 1 }
}

/// `k` is the first number, from `from` on, whose name is free.
pub open spec fn is_first_free(taken: Set<Seq<char>>, name: Seq<char>, from: int, k: int) -> bool {
    &&& from <= k
    &&& !taken.contains(numbered(name, k))
    &&& forall|j: int| from <= j < k ==> taken.contains(#[trigger] numbered(name, j))
}

/// What a store of names holds.
pub ghost struct Names {
    pub taken: Set<Seq<char>>,
    /// The number each name's next attempt gets.
    pub ids: Map<Seq<char>, int>,
}

/// The name made from a name, and what is taken after: the name itself where it is free, else the
/// name with its first free number, from which the next attempt goes on.
pub open spec fn made(n: Names, name: Seq<char>) -> (Seq<char>, Names) {
    if !n.taken.contains(name) {
        (name, Names { taken: n.taken.insert(name), ids: n.ids })
    } else {
        let k = choose|k: int| is_first_free(n.taken, name, first_number(n.ids[name]), k);
        (numbered(name, k), Names { taken: n.taken.insert(numbered(name, k)), ids: n.ids.insert(name, k + 1) })
    }
}

/// Where finitely many names are taken, a name has a first free number.
proof fn lemma_some_number_free(taken: Set<Seq<char>>, name: Seq<char>, from: int) -> (k: int)
    requires
        taken.finite(),
        1 <= from,
    ensures
        is_first_free(taken, name, from, k),
    decreases taken.len(),
{
    let s = numbered(name, from);
    if !taken.contains(s) {
        from
    } else {
        let k = lemma_some_number_free(taken.remove(s), name, from + 1);
        assert(numbered(name, k) != s) by {
            lemma_numbered_injective(name, from, k);
        }
        assert forall|j: int| from <= j < k implies taken.contains(#[trigger] numbered(name, j)) by {
            if j > from {
                assert(taken.remove(s).contains(numbered(name, j)));
            }
        }
        k
    }
}

proof fn lemma_numbered_injective(name: Seq<char>, a: int, b: int)
    requires
        1 <= a,
        1 <= b,
    ensures
        numbered(name, a) == numbered(name, b) ==> a == b,
{
    if numbered(name, a) == numbered(name, b) {
        let head = name + seq!['_'];
        assert(numbered(name, a).skip(head.len() as int) =~= decimal(a as nat));
        assert(numbered(name, b).skip(head.len() as int) =~= decimal(b as nat));
        decimal_injective(a as nat, b as nat);
    }
}

/// Whether `s` is a name itself, or the name with a number from 1 on.
pub open spec fn is_variant_of(s: Seq<char>, name: Seq<char>) -> bool {
    s == name || exists|k: int| 1 <= k && s == #[trigger] numbered(name, k)
}

/// A made name was free, and is taken after. It is the name asked for where that was free, else that name with
/// its first free number from the next one to be tried on, which is at least 1.
pub proof fn law_made_names_are_new(n: Names, name: Seq<char>)
    requires
        n.taken.finite(),
    ensures
        !n.taken.contains(made(n, name).0),
        made(n, name).1.taken == n.taken.insert(made(n, name).0),
        made(n, name).1.taken.finite(),
        !n.taken.contains(name) ==> made(n, name).0 == name,
        n.taken.contains(name) ==> exists|k: int| 1 <= k && #[trigger] is_first_free(n.taken, name, first_number(n.ids[name]), k)
            && made(n, name).0 == numbered(name, k),
        is_variant_of(made(n, name).0, name),
{
    if n.taken.contains(name) {
        let w = lemma_some_number_free(n.taken, name, first_number(n.ids[name]));
        let k = choose|k: int| is_first_free(n.taken, name, first_number(n.ids[name]), k);
        assert(is_first_free(n.taken, name, first_number(n.ids[name]), k));
    }
}

/// The names made from a list of names, one after the other, and what is taken after the first `k`.
pub open spec fn made_all(n: Names, list: Seq<Seq<char>>, k: int) -> (Seq<Seq<char>>, Names)
    decreases k,
{
    if k <= 0 {
        (Seq::empty(), n)
    } else {
        let (v, m) = made_all(n, list, k - 1);
        (v.push(made(m, list[k - 1]).0), made(m, list[k - 1]).1)
    }
}

/// The names made one after the other are in none of the names taken at first, and no two of them are the
/// same; each is the name asked for or that name with a number from 1 on.
pub proof fn law_made_names_never_collide(n: Names, list: Seq<Seq<char>>, k: int)
    requires
        n.taken.finite(),
        0 <= k <= list.len(),
    ensures
        made_all(n, list, k).0.len() == k,
        forall|i: int| 0 <= i < k ==> !n.taken.contains(#[trigger] made_all(n, list, k).0[i]),
        forall|i: int, j: int| 0 <= i < j < k ==> #[trigger] made_all(n, list, k).0[i] != #[trigger] made_all(n, list, k).0[j],
        forall|i: int| 0 <= i < k ==> is_variant_of(#[trigger] made_all(n, list, k).0[i], list[i]),
        made_all(n, list, k).1.taken.finite(),
        forall|s: Seq<char>| #[trigger] made_all(n, list, k).1.taken.contains(s) <==> n.taken.contains(s) || made_all(n, list, k).0.contains(s),
    decreases k,
{
    if k > 0 {
        law_made_names_never_collide(n, list, k - 1);
        let (v, m) = made_all(n, list, k - 1);
        law_made_names_are_new(m, list[k - 1]);
        let r = made(m, list[k - 1]).0;
        let w = v.push(r);
        assert(made_all(n, list, k).0 == w);
        assert forall|i: int, j: int| 0 <= i < j < k implies #[trigger] w[i] != #[trigger] w[j] by {
            if j == k - 1 {
                assert(v.contains(v[i]));
                assert(m.taken.contains(v[i]));
            }
        }
        assert forall|s: Seq<char>| #[trigger] made_all(n, list, k).1.taken.contains(s) <==> n.taken.contains(s) || w.contains(s) by {
            if w.contains(s) {
                let i = choose|i: int| 0 <= i < w.len() && w[i] == s;
                if i < k - 1 {
                    assert(v[i] == s);
                    assert(v.contains(s));
                }
            }
            if v.contains(s) {
                let i = choose|i: int| 0 <= i < v.len() && v[i] == s;
                assert(w[i] == s);
            }
            if s == r {
                assert(w[k - 1] == s);
            }
        }
        assert forall|i: int| 0 <= i < k implies is_variant_of(#[trigger] w[i], list[i]) by {
            if i < k - 1 {
                assert(w[i] == v[i]);
            }
        }
    }
}

impl UniqueNames {
    /// A store holds finitely many names, so that the laws on made names hold of it.
    pub proof fn law_store_is_finite(&self)
        ensures
            self@.taken.finite(),
            self@.taken.len() <= self.taken@.len(),
    {
        let views = self.taken@.map_values(|s: String| s@);
        views.lemma_cardinality_of_set();
        assert(self.names() =~= views.to_set()) by {
            assert forall|s: Seq<char>| self.names().contains(s) <==> views.to_set().contains(s) by {
                if self.names().contains(s) {
                    let k = choose|k: int| 0 <= k < self.taken@.len() && (#[trigger] self.taken@[k])@ == s;
                    assert(views[k] == s);
                }
                if views.to_set().contains(s) {
                    let k = choose|k: int| 0 <= k < views.len() && views[k] == s;
                    assert(self.taken@[k]@ == s);
                }
            }
        }
    }
}

impl UniqueNames {
    /// The names taken.
    pub open spec fn names(&self) -> Set<Seq<char>> {
        name_set(self.taken@)
    }

    /// The number a name's next attempt gets.
    pub open spec fn id(&self, name: Seq<char>) -> int {
        id_of(self.ids@, name, self.ids@.len() as int)
    }

    /// The names are kept in order, and numbers are not negative.
    pub open spec fn wf(&self) -> bool {
        &&& forall|i: int, j: int| 0 <= i < j < self.taken@.len() ==> text_less((#[trigger] self.taken@[i])@, (#[trigger] self.taken@[j])@)
        &&& forall|k: int| 0 <= k < self.ids@.len() ==> (#[trigger] self.ids@[k]).1 >= 0
        &&& forall|name: Seq<char>, j: int| 1 <= j < self.id(name) ==> self.names().contains(#[trigger] numbered(name, j))
    }

    /// The names taken and the numbers tried.
    pub open spec fn view(&self) -> Names {
        Names { taken: self.names(), ids: Map::new(|s: Seq<char>| true, |s: Seq<char>| self.id(s)) }
    }

    /// The position where a name stands or belongs.
    fn find(&self, name: &str) -> (r: (bool, usize))
        requires
            self.wf(),
        ensures
            r.0 == self.names().contains(name@),
            r.1 <= self.taken@.len(),
            forall|i: int| 0 <= i < r.1 ==> text_less((#[trigger] self.taken@[i])@, name@),
            !r.0 ==> forall|i: int| r.1 <= i < self.taken@.len() ==> text_less(name@, (#[trigger] self.taken@[i])@),
    {
        let mut lo: usize = 0;
        let mut hi: usize = self.taken.len();
        while lo < hi
            invariant
                self.wf(),
                lo <= hi <= self.taken@.len(),
                forall|i: int| 0 <= i < lo ==> text_less((#[trigger] self.taken@[i])@, name@),
                forall|i: int| hi <= i < self.taken@.len() ==> !text_less((#[trigger] self.taken@[i])@, name@),
            decreases hi - lo,
        {
            let mid: usize = lo + (hi - lo) / 2;
            if comes_before(self.taken[mid].as_str(), name) {
                assert forall|i: int| 0 <= i < mid + 1 implies text_less((#[trigger] self.taken@[i])@, name@) by {
                    if i < mid {
                        lemma_text_less_trans(self.taken@[i]@, self.taken@[mid as int]@, name@);
                    }
                }
                lo = mid + 1;
            } else {
                assert forall|i: int| mid <= i < self.taken@.len() implies !text_less((#[trigger] self.taken@[i])@, name@) by {
                    if i > mid && text_less(self.taken@[i]@, name@) {
                        lemma_text_less_trans(self.taken@[mid as int]@, self.taken@[i]@, name@);
                    }
                }
                hi = mid;
            }
        }
        let here: bool = lo < self.taken.len() && same_text(self.taken[lo].as_str(), name);
        proof {
            if here {
                assert(self.taken@[lo as int]@ == name@);
            } else {
                assert forall|i: int| lo <= i < self.taken@.len() implies text_less(name@, (#[trigger] self.taken@[i])@) by {
                    lemma_text_less_total(name@, self.taken@[i]@);
                    if self.taken@[i]@ == name@ && i > lo {
                        assert(text_less(self.taken@[lo as int]@, self.taken@[i]@));
                    }
                }
                if self.names().contains(name@) {
                    let k = choose|k: int| 0 <= k < self.taken@.len() && (#[trigger] self.taken@[k])@ == name@;
                    lemma_text_less_antisym(name@, name@);
                    if k < lo {
                        assert(text_less(self.taken@[k]@, name@));
                    } else {
                        assert(text_less(name@, self.taken@[k]@));
                    }
                }
            }
        }
        (here, lo)
    }

    /// Take a name. `false` if it is taken already.
    fn take(&mut self, name: &str) -> (fresh: bool)
        requires
            old(self).wf(),
        ensures
            final(self).wf(),
            fresh == !old(self).names().contains(name@),
            final(self).ids == old(self).ids,
            final(self).names() == old(self).names().insert(name@),
            final(self).taken@.len() == old(self).taken@.len() + (if fresh { 1nat } else { 0nat }),
    {
        let ghost t0 = self.taken@;
        let (here, at) = self.find(name);
        if here {
            assert(self.names() =~= self.names().insert(name@));
            return false;
        }
        self.taken.insert(at, name.to_owned());
        proof {
            let t = self.taken@;
            assert forall|i: int, j: int| 0 <= i < j < t.len() implies text_less((#[trigger] t[i])@, (#[trigger] t[j])@) by {
                let a = if i < at { i } else { i - 1 };
                let b = if j < at { j } else { j - 1 };
                if i != at { assert(t[i] == t0[a]); }
                if j != at { assert(t[j] == t0[b]); }
                if i != at && j != at {
                    assert(text_less(t0[a]@, t0[b]@));
                }
            }
            assert(self.names() =~= old(self).names().insert(name@)) by {
                assert forall|s: Seq<char>| #[trigger] self.names().contains(s) <==> old(self).names().insert(name@).contains(s) by {
                    if self.names().contains(s) {
                        let k = choose|k: int| 0 <= k < t.len() && (#[trigger] t[k])@ == s;
                        if k != at {
                            let a = if k < at { k } else { k - 1 };
                            assert(t0[a]@ == s);
                        }
                    }
                    if old(self).names().contains(s) {
                        let k = choose|k: int| 0 <= k < t0.len() && (#[trigger] t0[k])@ == s;
                        let a = if k < at { k } else { k + 1 };
                        assert(t[a]@ == s);
                    }
                    assert(t[at as int]@ == name@);
                }
            }
        }
        true
    }

    /// With the names of the instances there are.
    pub fn new(existing: &Vec<String>) -> (r: UniqueNames)
        ensures
            r.wf(),
            r.names() == name_set(existing@),
            r.ids@.len() == 0,
            r.taken@.len() <= existing@.len(),
    {
        let mut r = UniqueNames { taken: Vec::new(), ids: Vec::new() };
        let mut k: usize = 0;
        assert(r.names() =~= name_set(existing@.subrange(0, 0)));
        while k < existing.len()
            invariant
                k <= existing@.len(),
                r.wf(),
                r.ids@.len() == 0,
                r.taken@.len() <= k,
                r.names() == name_set(existing@.subrange(0, k as int)),
            decreases existing@.len() - k,
        {
            let ghost before = r.names();
            r.take(existing[k].as_str());
            proof {
                let a = existing@.subrange(0, k as int);
                let b = existing@.subrange(0, k + 1);
                assert(r.names() =~= name_set(b)) by {
                    assert forall|s: Seq<char>| #[trigger] r.names().contains(s) <==> name_set(b).contains(s) by {
                        if before.contains(s) {
                            let q = choose|q: int| 0 <= q < a.len() && (#[trigger] a[q])@ == s;
                            assert(b[q]@ == s);
                        }
                        if name_set(b).contains(s) {
                            let q = choose|q: int| 0 <= q < b.len() && (#[trigger] b[q])@ == s;
                            if q < k { assert(a[q]@ == s); }
                        }
                        assert(b[k as int]@ == existing@[k as int]@);
                    }
                }
            }
            k = k + 1;
        }
        assert(existing@.subrange(0, k as int) =~= existing@);
        r
    }

    /// A name that is not taken, which then is: the name itself where it is free, else the name with
    /// the next free number.
    pub fn make(&mut self, name: &str) -> (r: String)
        requires
            old(self).wf(),
            old(self).taken@.len() + 3 < i32::MAX,
        ensures
            final(self).wf(),
            !old(self).names().contains(r@),
            final(self).taken@.len() == old(self).taken@.len() + 1,
            (r@, final(self)@) == made(old(self)@, name@),
            !old(self).names().contains(name@) ==> r@ == name@,
            is_variant_of(r@, name@),
    {
        if self.take(name) {
            proof {
                assert(self@.ids =~= old(self)@.ids);
            }
            return name.to_owned();
        }
        let ghost n0 = old(self).names();
        assert(self.names() =~= n0);
        let start: i32 = self.read_id(name);
        let mut id: i32 = if start > 1 { start } else { 1 };
        let ghost from = id as int;
        let ghost mut tried: Seq<Seq<char>> = Seq::new((id - 1) as nat, |j: int| numbered(name@, 1 + j));
        loop
            invariant
                self.wf(),
                old(self).wf(),
                n0 == old(self).names(),
                self.names() == n0,
                n0.contains(name@),
                self.taken@.len() == old(self).taken@.len(),
                self.ids == old(self).ids,
                1 <= from <= id,
                from == first_number(old(self).id(name@)),
                old(self).taken@.len() + 3 < i32::MAX,
                tried.len() == id - 1,
                forall|j: int| 0 <= j < tried.len() ==> #[trigger] tried[j] == numbered(name@, 1 + j),
                forall|j: int| 1 <= j < id ==> n0.contains(#[trigger] numbered(name@, j)),
            decreases self.taken@.len() + 2 - id,
        {
            proof {
                lemma_tried_bound(self.taken@, name@, 1, tried);
            }
            let mut full = name.to_owned();
            full.append("_");
            append_decimal(&mut full, id as u128);
            proof {
                reveal_strlit("_");
                assert("_"@ =~= seq!['_']);
                assert(full@ =~= numbered(name@, id as int));
            }
            if self.take(full.as_str()) {
                proof {
                    assert(is_first_free(n0, name@, from, id as int));
                    let k = choose|k: int| is_first_free(n0, name@, first_number(old(self)@.ids[name@]), k);
                    if k < id {
                        assert(n0.contains(numbered(name@, k)));
                    }
                    assert(k == id);
                }
                let ghost mid = *self;
                self.write_id(name, id + 1);
                proof {
                    assert forall|o: Seq<char>| o != name@ implies self.id(o) == #[trigger] old(self).id(o) by {
                        assert(mid.id(o) == old(self).id(o));
                    }
                    assert(self@.ids =~= old(self)@.ids.insert(name@, id + 1));
                }
                return full;
            }
            proof {
                assert(n0.contains(numbered(name@, id as int)));
                tried = tried.push(numbered(name@, id as int));
                assert(n0 =~= n0.insert(full@));
            }
            id = id + 1;
        }
    }

    fn read_id(&self, name: &str) -> (r: i32)
        requires
            self.wf(),
        ensures
            r == self.id(name@),
            r >= 0,
    {
        let mut n: usize = self.ids.len();
        while n > 0
            invariant
                self.wf(),
                n <= self.ids@.len(),
                id_of(self.ids@, name@, n as int) == self.id(name@),
            decreases n,
        {
            if same_text(self.ids[n - 1].0.as_str(), name) {
                return self.ids[n - 1].1;
            }
            n = n - 1;
        }
        0
    }

    fn write_id(&mut self, name: &str, v: i32)
        requires
            old(self).wf(),
            v >= 0,
            forall|j: int| 1 <= j < v ==> old(self).names().contains(#[trigger] numbered(name@, j)),
        ensures
            final(self).wf(),
            final(self).taken == old(self).taken,
            final(self).id(name@) == v,
            forall|o: Seq<char>| o != name@ ==> final(self).id(o) == #[trigger] old(self).id(o),
    {
        let ghost i0 = self.ids@;
        self.ids.push((name.to_owned(), v));
        assert forall|o: Seq<char>| o != name@ implies self.id(o) == #[trigger] old(self).id(o) by {
            lemma_id_push(i0, self.ids@, o, i0.len() as int);
        }
        assert forall|o: Seq<char>, j: int| 1 <= j < self.id(o) implies self.names().contains(#[trigger] numbered(o, j)) by {
            if o != name@ {
                assert(self.id(o) == old(self).id(o));
            }
        }
    }
}

proof fn lemma_id_push(a: Seq<(String, i32)>, b: Seq<(String, i32)>, name: Seq<char>, n: int)
    requires
        0 <= n <= a.len(),
        a.len() <= b.len(),
        forall|k: int| 0 <= k < a.len() ==> b[k] == a[k],
    ensures
        id_of(b, name, n) == id_of(a, name, n),
    decreases n,
{
    if n > 0 {
        lemma_id_push(a, b, name, n - 1);
    }
}

/// Different names that are all taken are no more than the names taken.
proof fn lemma_tried_bound(taken: Seq<String>, name: Seq<char>, from: int, tried: Seq<Seq<char>>)
    requires
        1 <= from,
        forall|j: int| 0 <= j < tried.len() ==> #[trigger] tried[j] == numbered(name, from + j),
        forall|j: int| from <= j < from + tried.len() ==> name_set(taken).contains(#[trigger] numbered(name, j)),
    ensures
        tried.len() <= taken.len(),
{
    let views = taken.map_values(|s: String| s@);
    assert forall|i: int, j: int| 0 <= i < tried.len() && 0 <= j < tried.len() && i != j implies tried[i] != tried[j] by {
        if tried[i] == tried[j] {
            let head = name + seq!['_'];
            let a = numbered(name, from + i);
            let b = numbered(name, from + j);
            assert(a.skip(head.len() as int) =~= decimal((from + i) as nat));
            assert(b.skip(head.len() as int) =~= decimal((from + j) as nat));
            decimal_injective((from + i) as nat, (from + j) as nat);
        }
    }
    tried.unique_seq_to_set();
    views.lemma_cardinality_of_set();
    assert(tried.to_set().subset_of(views.to_set())) by {
        assert forall|s: Seq<char>| #[trigger] tried.to_set().contains(s) implies views.to_set().contains(s) by {
            let j = choose|j: int| 0 <= j < tried.len() && tried[j] == s;
            assert(name_set(taken).contains(numbered(name, from + j)));
            let k = choose|k: int| 0 <= k < taken.len() && (#[trigger] taken[k])@ == s;
            assert(views[k] == s);
        }
    }
    vstd::set_lib::lemma_len_subset(tried.to_set(), views.to_set());
}

} // verus!
