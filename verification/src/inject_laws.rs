//! What a stage's line says is what it was written from.

use vstd::prelude::*;
use crate::checks::movable;
use crate::improve::Node;
use crate::inject::{digit_of, digits, entries, entries_of, entries_ok, entry, entry_ok, integer, natural, next_sep, parts_from, Put};
use crate::orient::{law_names_read_back, Orient};
use crate::random::Twister;
use crate::records::{barred, cell_entries, cell_entry, joined_text, stage_text};
use crate::text::{decimal, digit, signed_decimal};

verus! {

// ── splitting what was joined ────────────────────────────────────────────────────────────────

/// Whether a text has no separator.
pub open spec fn lacks(t: Seq<char>, sep: char) -> bool {
    forall|k: int| 0 <= k < t.len() ==> #[trigger] t[k] != sep
}

proof fn lemma_no_sep(t: Seq<char>, sep: char, i: int)
    requires
        0 <= i <= t.len(),
        forall|k: int| i <= k < t.len() ==> #[trigger] t[k] != sep,
    ensures
        next_sep(t, sep, i) == t.len(),
    decreases t.len() - i,
{
    if i < t.len() {
        lemma_no_sep(t, sep, i + 1);
    }
}

/// The next separator of a longer text is that of the shorter one, if it has one.
proof fn lemma_next_longer(t: Seq<char>, u: Seq<char>, sep: char, i: int)
    requires
        0 <= i <= t.len() <= u.len(),
        forall|k: int| 0 <= k < t.len() ==> #[trigger] t[k] == u[k],
    ensures
        i <= next_sep(t, sep, i) <= t.len(),
        next_sep(t, sep, i) < t.len() ==> next_sep(u, sep, i) == next_sep(t, sep, i),
        next_sep(t, sep, i) == t.len() ==> next_sep(u, sep, i) == next_sep(u, sep, t.len() as int),
    decreases t.len() - i,
{
    if i < t.len() {
        assert(t[i] == u[i]);
        if t[i] != sep {
            lemma_next_longer(t, u, sep, i + 1);
        }
    }
}

proof fn lemma_parts_nonempty(t: Seq<char>, sep: char, i: int)
    ensures
        parts_from(t, sep, i).len() > 0,
    decreases t.len() - i,
{
    let j = next_sep(t, sep, i);
    if 0 <= i <= j < t.len() {
        lemma_parts_nonempty(t, sep, j + 1);
    }
}

/// A text that ends with a separator and a part without one has that part as its last.
proof fn lemma_parts_push(t: Seq<char>, b: Seq<char>, sep: char, i: int)
    requires
        0 <= i <= t.len(),
        lacks(b, sep),
    ensures
        parts_from(t + seq![sep] + b, sep, i) == parts_from(t, sep, i).push(b),
    decreases t.len() - i,
{
    let u = t + seq![sep] + b;
    lemma_next_longer(t, u, sep, i);
    let j = next_sep(t, sep, i);
    if j < t.len() {
        lemma_parts_push(t, b, sep, j + 1);
        assert(u.subrange(i, j) =~= t.subrange(i, j));
        assert(seq![t.subrange(i, j)] + parts_from(t, sep, j + 1).push(b) =~= (seq![t.subrange(i, j)] + parts_from(t, sep, j + 1)).push(b));
    } else {
        assert(u[t.len() as int] == sep);
        assert(next_sep(u, sep, i) == t.len());
        let n = t.len() as int;
        assert forall|k: int| n + 1 <= k < u.len() implies #[trigger] u[k] != sep by {
            assert(u[k] == b[k - n - 1]);
        }
        lemma_no_sep(u, sep, n + 1);
        assert(u.subrange(i, n) =~= t.subrange(i, n));
        assert(u.subrange(n + 1, u.len() as int) =~= b);
        assert(parts_from(u, sep, n + 1) =~= seq![b]);
        assert(parts_from(t, sep, i) =~= seq![t.subrange(i, n)]);
        assert(seq![t.subrange(i, n)] + seq![b] =~= seq![t.subrange(i, n)].push(b));
    }
}

/// A text without a separator is one part.
proof fn lemma_one_part(t: Seq<char>, sep: char)
    requires
        lacks(t, sep),
    ensures
        parts_from(t, sep, 0) == seq![t],
{
    lemma_no_sep(t, sep, 0);
    assert(t.subrange(0, t.len() as int) =~= t);
    assert(parts_from(t, sep, 0) =~= seq![t]);
}

/// A text without a separator that follows a text lengthens its last part.
proof fn lemma_parts_extend(t: Seq<char>, b: Seq<char>, sep: char, i: int)
    requires
        0 <= i <= t.len(),
        lacks(b, sep),
    ensures
        parts_from(t + b, sep, i) == parts_from(t, sep, i).drop_last().push(parts_from(t, sep, i).last() + b),
        parts_from(t, sep, i).len() > 0,
    decreases t.len() - i,
{
    let u = t + b;
    lemma_next_longer(t, u, sep, i);
    lemma_parts_nonempty(t, sep, i);
    let j = next_sep(t, sep, i);
    let n = t.len() as int;
    if j < n {
        lemma_parts_extend(t, b, sep, j + 1);
        lemma_parts_nonempty(t, sep, j + 1);
        let rest = parts_from(t, sep, j + 1);
        assert(u.subrange(i, j) =~= t.subrange(i, j));
        let all = seq![t.subrange(i, j)] + rest;
        assert(all.last() == rest.last());
        assert(seq![t.subrange(i, j)] + rest.drop_last().push(rest.last() + b) =~= all.drop_last().push(all.last() + b));
    } else {
        assert forall|k: int| n <= k < u.len() implies #[trigger] u[k] != sep by {
            assert(u[k] == b[k - n]);
        }
        lemma_no_sep(u, sep, n);
        assert(u.subrange(i, u.len() as int) =~= t.subrange(i, n) + b);
        assert(parts_from(t, sep, i) =~= seq![t.subrange(i, n)]);
        assert(parts_from(u, sep, i) =~= seq![u.subrange(i, u.len() as int)]);
        assert(parts_from(t, sep, i).drop_last().push(parts_from(t, sep, i).last() + b) =~= seq![t.subrange(i, n) + b]);
    }
}

/// Fields between bars are split where they were joined.
proof fn lemma_barred(v: Seq<Seq<char>>, n: int)
    requires
        1 <= n <= v.len(),
        forall|k: int| 0 <= k < v.len() ==> lacks(#[trigger] v[k], '|'),
    ensures
        parts_from(joined_text(v, "|"@, n), '|', 0) == v.subrange(0, n),
    decreases n,
{
    reveal_strlit("|");
    assert("|"@ =~= seq!['|']);
    assert(lacks(v[n - 1], '|'));
    if n == 1 {
        lemma_one_part(v[0], '|');
        assert(v.subrange(0, 1) =~= seq![v[0]]);
    } else {
        lemma_barred(v, n - 1);
        lemma_parts_push(joined_text(v, "|"@, n - 1), v[n - 1], '|', 0);
        assert(v.subrange(0, n) =~= v.subrange(0, n - 1).push(v[n - 1]));
    }
}

// ── numbers ──────────────────────────────────────────────────────────────────────────────────

/// Whether a text is made of digits.
spec fn all_digits(t: Seq<char>) -> bool {
    forall|k: int| 0 <= k < t.len() ==> '0' <= #[trigger] t[k] && t[k] <= '9'
}

proof fn lemma_digit(d: nat)
    requires
        d < 10,
    ensures
        digit_of(digit(d)) == Some(d as int),
        '0' <= digit(d) && digit(d) <= '9',
{
}

proof fn lemma_digits_prefix(a: Seq<char>, b: Seq<char>, n: int)
    requires
        0 <= n <= a.len() <= b.len(),
        forall|k: int| 0 <= k < a.len() ==> #[trigger] a[k] == b[k],
    ensures
        digits(a, n) == digits(b, n),
    decreases n,
{
    if n > 0 {
        lemma_digits_prefix(a, b, n - 1);
        assert(a[n - 1] == b[n - 1]);
    }
}

/// A number in decimal reads back.
proof fn lemma_decimal(n: nat)
    ensures
        decimal(n).len() > 0,
        all_digits(decimal(n)),
        digits(decimal(n), decimal(n).len() as int) == Some(n as int),
    decreases n,
{
    lemma_digit(n % 10);
    if n < 10 {
        let t = decimal(n);
        assert(t =~= seq![digit(n)]);
        assert(t[0] == digit(n));
        assert(digits(t, 0) == Some(0int));
        assert(digits(t, 1) == Some(n as int));
    } else {
        lemma_decimal(n / 10);
        let (a, t) = (decimal(n / 10), decimal(n));
        assert(t == a.push(digit(n % 10)));
        lemma_digits_prefix(a, t, a.len() as int);
        assert(t[a.len() as int] == digit(n % 10));
        assert forall|k: int| 0 <= k < t.len() implies '0' <= #[trigger] t[k] && t[k] <= '9' by {
            if k < a.len() {
                assert(t[k] == a[k]);
            }
        }
        assert(digits(t, t.len() as int) == Some(10 * (n / 10) as int + (n % 10) as int));
    }
}

/// A number with its sign reads back, and holds none of the separators.
proof fn lemma_signed(v: int)
    ensures
        integer(signed_decimal(v)) == Some(v),
        lacks(signed_decimal(v), ':') && lacks(signed_decimal(v), ';') && lacks(signed_decimal(v), '|'),
        v >= 0 ==> natural(signed_decimal(v)) == Some(v) && signed_decimal(v).len() > 0 && signed_decimal(v)[0] != '+',
{
    let t = signed_decimal(v);
    if v < 0 {
        lemma_decimal((-v) as nat);
        let d = decimal((-v) as nat);
        assert(t == seq!['-'] + d);
        assert(t[0] == '-');
        assert(t.subrange(1, t.len() as int) =~= d);
        assert forall|k: int| 0 <= k < t.len() implies #[trigger] t[k] != ':' && t[k] != ';' && t[k] != '|' by {
            if k > 0 {
                assert(t[k] == d[k - 1]);
            }
        }
    } else {
        lemma_decimal(v as nat);
        let d = decimal(v as nat);
        assert(t == d);
        assert('0' <= d[0] && d[0] <= '9');
        assert forall|k: int| 0 <= k < t.len() implies #[trigger] t[k] != ':' && t[k] != ';' && t[k] != '|' by {
            assert('0' <= d[k] && d[k] <= '9');
        }
    }
}

proof fn lemma_orient_text(o: Orient)
    ensures
        Orient::of_text(o.text()) == Some(o),
        lacks(o.text(), ':') && lacks(o.text(), ';') && lacks(o.text(), '|'),
{
    law_names_read_back(o);
    reveal_strlit("R0");
    reveal_strlit("R90");
    reveal_strlit("R180");
    reveal_strlit("R270");
    reveal_strlit("MY");
    reveal_strlit("MYR90");
    reveal_strlit("MX");
    reveal_strlit("MXR90");
}

// ── entries ──────────────────────────────────────────────────────────────────────────────────

/// An entry of a line without the semicolon behind it.
spec fn bare(n: Node) -> Seq<char> {
    signed_decimal(n.id as int) + seq![':'] + signed_decimal(n.left as int) + seq![':'] + signed_decimal(n.bottom as int) + seq![':'] + n.orient.text()
}

/// Where a node is, as a line says it.
pub open spec fn put_of(n: Node) -> Put {
    Put { node: n.id, x: n.left, y: n.bottom, orient: n.orient }
}

proof fn lemma_bare(n: Node)
    ensures
        cell_entry(n) == bare(n) + seq![';'],
        bare(n).len() > 0,
        lacks(bare(n), ';'),
        lacks(bare(n), '|'),
        entry_ok(bare(n)),
        entry(bare(n)) == put_of(n),
{
    reveal_strlit(":");
    reveal_strlit(";");
    assert(":"@ =~= seq![':']);
    assert(";"@ =~= seq![';']);
    lemma_signed(n.id as int);
    lemma_signed(n.left as int);
    lemma_signed(n.bottom as int);
    lemma_orient_text(n.orient);
    let (a, b, c, o) = (signed_decimal(n.id as int), signed_decimal(n.left as int), signed_decimal(n.bottom as int), n.orient.text());
    let t1 = a + seq![':'] + b;
    let t2 = t1 + seq![':'] + c;
    let t3 = t2 + seq![':'] + o;
    assert(bare(n) =~= t3);
    assert(cell_entry(n) =~= t3 + seq![';']);
    lemma_one_part(a, ':');
    lemma_parts_push(a, b, ':', 0);
    lemma_parts_push(t1, c, ':', 0);
    lemma_parts_push(t2, o, ':', 0);
    assert(parts_from(t3, ':', 0) =~= seq![a, b, c, o]);
    assert forall|k: int| 0 <= k < t3.len() implies #[trigger] t3[k] != ';' && t3[k] != '|' by {
        if k < a.len() {
            assert(t3[k] == a[k]);
        } else if k == a.len() {
        } else if k < t1.len() {
            assert(t3[k] == b[k - a.len() - 1]);
        } else if k == t1.len() {
        } else if k < t2.len() {
            assert(t3[k] == c[k - t1.len() - 1]);
        } else if k == t2.len() {
        } else {
            assert(t3[k] == o[k - t2.len() - 1]);
        }
    }
}

/// Where the movable ones of the first `n` nodes are.
pub open spec fn puts_of(nodes: Seq<Node>, n: int) -> Seq<Put>
    decreases n,
{
    if n <= 0 {
        Seq::empty()
    } else if movable(nodes[n - 1]) {
        puts_of(nodes, n - 1).push(put_of(nodes[n - 1]))
    } else {
        puts_of(nodes, n - 1)
    }
}

proof fn lemma_entries_prefix(a: Seq<Seq<char>>, b: Seq<Seq<char>>, n: int)
    requires
        0 <= n <= a.len() <= b.len(),
        forall|k: int| 0 <= k < n ==> #[trigger] a[k] == b[k],
    ensures
        entries(a, n) == entries(b, n),
    decreases n,
{
    if n > 0 {
        lemma_entries_prefix(a, b, n - 1);
        assert(a[n - 1] == b[n - 1]);
    }
}

/// The entries of the movable nodes read back one by one; an empty part is left at the end.
proof fn lemma_cell_entries(nodes: Seq<Node>, n: int)
    requires
        0 <= n <= nodes.len(),
    ensures
        ({
            let p = parts_from(cell_entries(nodes, n), ';', 0);
            &&& p.len() > 0
            &&& p.last().len() == 0
            &&& entries_ok(p, p.len() as int)
            &&& entries(p, p.len() as int) == puts_of(nodes, n)
            &&& lacks(cell_entries(nodes, n), '|')
        }),
    decreases n,
{
    if n <= 0 {
        let e = cell_entries(nodes, n);
        assert(e =~= Seq::<char>::empty());
        lemma_one_part(e, ';');
        let p = parts_from(e, ';', 0);
        assert(p[0].len() == 0);
        assert(entries(p, 0) =~= Seq::<Put>::empty());
        assert(entries(p, 1) =~= Seq::<Put>::empty());
    } else {
        lemma_cell_entries(nodes, n - 1);
        if movable(nodes[n - 1]) {
            let nd = nodes[n - 1];
            let e = cell_entries(nodes, n - 1);
            let p = parts_from(e, ';', 0);
            let b = bare(nd);
            lemma_bare(nd);
            lemma_parts_extend(e, b, ';', 0);
            assert(p.last() + b =~= b);
            let q = parts_from(e + b, ';', 0);
            assert(q == p.drop_last().push(b));
            let none = Seq::<char>::empty();
            lemma_parts_push(e + b, none, ';', 0);
            let now = cell_entries(nodes, n);
            assert(now =~= e + b + seq![';'] + none);
            let r = parts_from(now, ';', 0);
            assert(r == q.push(none));
            let m = p.len() - 1;
            assert(entries(p, p.len() as int) == entries(p, m));
            lemma_entries_prefix(p.drop_last(), p, m);
            lemma_entries_prefix(p.drop_last(), r, m);
            assert(r[m] == b);
            assert(entries(r, m + 1) == entries(r, m).push(entry(b)));
            assert(r[m + 1].len() == 0);
            assert(entries(r, m + 2) == entries(r, m + 1));
            assert forall|k: int| 0 <= k < r.len() && (#[trigger] r[k]).len() > 0 implies entry_ok(r[k]) by {
                if k < m {
                    assert(r[k] == p[k]);
                }
            }
            assert forall|k: int| 0 <= k < now.len() implies #[trigger] now[k] != '|' by {
                if k < e.len() {
                    assert(now[k] == e[k]);
                } else if k < e.len() + b.len() {
                    assert(now[k] == b[k - e.len()]);
                }
            }
        }
    }
}

/// Reading a stage's line gives back where the movable nodes were when it was written.
pub proof fn law_stage_lines_read_back(nodes: Seq<Node>, t: Twister, stage: Seq<char>, when: Seq<char>)
    requires
        lacks(stage, '|'),
        lacks(when, '|'),
    ensures
        ({
            let line = stage_text(nodes, t, stage, when);
            let v = entries_of(line);
            &&& parts_from(line, '|', 0).len() == 6
            &&& entries_ok(v, v.len() as int)
            &&& entries(v, v.len() as int) == puts_of(nodes, nodes.len() as int)
        }),
{
    let draw = "rng="@ + signed_decimal(t.value() as int);
    let cells = cell_entries(nodes, nodes.len() as int);
    let f = seq!["VYGS"@, "stage"@, stage, when, draw, cells];
    reveal_strlit("VYGS");
    reveal_strlit("stage");
    reveal_strlit("rng=");
    lemma_signed(t.value() as int);
    lemma_cell_entries(nodes, nodes.len() as int);
    assert forall|k: int| 0 <= k < f.len() implies lacks(#[trigger] f[k], '|') by {
        if k == 4 {
            let d = signed_decimal(t.value() as int);
            assert forall|j: int| 0 <= j < draw.len() implies #[trigger] draw[j] != '|' by {
                if j >= 4 {
                    assert(draw[j] == d[j - 4]);
                }
            }
        }
    }
    lemma_barred(f, 6);
    assert(f.subrange(0, 6) =~= f);
    assert(stage_text(nodes, t, stage, when) == barred(f));
}

} // verus!
