//! Lines of text that show a state: fields between bars.

use vstd::prelude::*;
use crate::checks::movable;
use crate::improve::{Kind, Node};
use crate::land::{Land, St};
use crate::random::{Mt19937, Twister};
use crate::rows::Row;
use crate::segments::Segment;
use crate::setup::Setup;
use crate::text::{append_signed, signed_decimal, texts};

verus! {

// ── fields ───────────────────────────────────────────────────────────────────────────────────

/// The first `n` texts with a separator between them.
pub open spec fn joined_text(v: Seq<Seq<char>>, sep: Seq<char>, n: int) -> Seq<char>
    decreases n,
{
    if n <= 0 {
        Seq::empty()
    } else if n == 1 {
        v[0]
    } else {
        joined_text(v, sep, n - 1) + sep + v[n - 1]
    }
}

/// Fields between bars.
pub open spec fn barred(v: Seq<Seq<char>>) -> Seq<char> {
    joined_text(v, "|"@, v.len() as int)
}

/// A text that is being written, and its fields so far.
struct Line {
    text: String,
    fields: Ghost<Seq<Seq<char>>>,
}

impl Line {
    spec fn wf(&self) -> bool {
        self.text@ == barred(self.fields@) && self.fields@.len() > 0
    }

    fn start(word: &str) -> (r: Line)
        ensures
            r.wf(),
            r.fields@ == seq![word@],
    {
        let ghost fields = seq![word@];
        Line { text: word.to_owned(), fields: Ghost(fields) }
    }

    fn word(&mut self, word: &str)
        requires
            old(self).wf(),
        ensures
            final(self).wf(),
            final(self).fields@ == old(self).fields@.push(word@),
    {
        let ghost f0 = self.fields@;
        let ghost t0 = self.text@;
        self.text.append("|");
        self.text.append(word);
        self.fields = Ghost(self.fields@.push(word@));
        proof {
            let f = self.fields@;
            lemma_joined_prefix(f0, f, "|"@, f0.len() as int);
            assert(self.text@ =~= t0 + "|"@ + word@);
        }
    }

    fn number(&mut self, n: i64)
        requires
            old(self).wf(),
        ensures
            final(self).wf(),
            final(self).fields@ == old(self).fields@.push(signed_decimal(n as int)),
    {
        let mut t: String = "".to_owned();
        proof {
            reveal_strlit("");
            assert(t@ =~= Seq::<char>::empty());
        }
        append_signed(&mut t, n as i128);
        assert(t@ =~= signed_decimal(n as int));
        self.word(t.as_str());
    }
}

proof fn lemma_joined_prefix(a: Seq<Seq<char>>, b: Seq<Seq<char>>, sep: Seq<char>, n: int)
    requires
        0 <= n <= a.len() <= b.len(),
        forall|k: int| 0 <= k < a.len() ==> #[trigger] a[k] == b[k],
    ensures
        joined_text(a, sep, n) == joined_text(b, sep, n),
    decreases n,
{
    if n > 1 {
        lemma_joined_prefix(a, b, sep, n - 1);
    }
}

// ── lines ────────────────────────────────────────────────────────────────────────────────────

/// The line of the rows' box.
pub open spec fn arch_line(l: Land) -> Seq<char> {
    barred(seq![
        "VYGI"@, "arch"@,
        signed_decimal(l.arch.min_x as int), signed_decimal(l.arch.max_x as int),
        signed_decimal(l.arch.min_y as int), signed_decimal(l.arch.max_y as int),
    ])
}

/// The line of a row.
pub open spec fn row_line(k: int, r: Row) -> Seq<char> {
    barred(seq![
        "VYGI"@, "row"@, signed_decimal(k), signed_decimal(r.left as int), signed_decimal(r.end()), signed_decimal(r.bottom as int),
        signed_decimal(r.height as int), signed_decimal(r.site_spacing as int), r.orient.text(),
    ])
}

/// The letter of a kind of node.
pub open spec fn kind_letter(k: Kind) -> Seq<char> {
    match k {
        Kind::Cell => "C"@,
        Kind::Terminal => "T"@,
        Kind::Filler => "F"@,
    }
}

/// The line of a node.
pub open spec fn node_line(n: Node) -> Seq<char> {
    barred(seq![
        "VYGI"@, "node"@, signed_decimal(n.id as int), kind_letter(n.kind), n.name@, signed_decimal(n.left as int),
        signed_decimal(n.bottom as int), signed_decimal(n.width as int), signed_decimal(n.height as int),
        signed_decimal(if n.fixed { 1 } else { 0 }), signed_decimal(n.group as int),
    ])
}

/// The first `n` numbers of a list with commas between them.
pub open spec fn comma_list(v: Seq<usize>, n: int) -> Seq<char>
    decreases n,
{
    if n <= 0 {
        Seq::empty()
    } else if n == 1 {
        signed_decimal(v[0] as int)
    } else {
        comma_list(v, n - 1) + ","@ + signed_decimal(v[n - 1] as int)
    }
}

/// The line of a segment and its cells.
pub open spec fn seg_line(g: Segment, cells: Seq<usize>) -> Seq<char> {
    barred(seq![
        "VYGI"@, "seg"@, signed_decimal(g.id as int), signed_decimal(g.row as int), signed_decimal(g.reg as int),
        signed_decimal(g.min_x as int), signed_decimal(g.max_x as int), comma_list(cells, cells.len() as int),
    ])
}

/// The lines that show a state: the box, then the rows, the nodes and the segments.
pub open spec fn lines_of(l: Land, s: St) -> Seq<Seq<char>> {
    seq![arch_line(l)]
        + Seq::new(l.arch.rows@.len(), |k: int| row_line(k, l.arch.rows@[k]))
        + Seq::new(s.nodes.len(), |k: int| node_line(s.nodes[k]))
        + Seq::new(l.segments@.len(), |k: int| seg_line(l.segments@[k], s.cells[k]))
}

/// The numbers that lines show can be written.
pub open spec fn shown(l: Land, s: St) -> bool {
    &&& l.arch.rows@.len() <= i64::MAX
    &&& forall|k: int| 0 <= k < s.nodes.len() ==> (#[trigger] s.nodes[k]).id <= i64::MAX
    &&& forall|k: int| 0 <= k < l.segments@.len() ==> (#[trigger] l.segments@[k]).id <= i64::MAX
}

impl Setup {
    /// The lines that show the state.
    pub fn dump(&self) -> (out: Vec<String>)
        requires
            self.land.wf(),
            self.land.ok(self.live@),
            shown(self.land, self.live@),
        ensures
            texts(out@) == lines_of(self.land, self.live@),
    {
        let l = &self.land;
        let ghost s = self.live@;
        let mut out: Vec<String> = Vec::new();
        let mut first = Line::start("VYGI");
        first.word("arch");
        first.number(l.arch.min_x as i64);
        first.number(l.arch.max_x as i64);
        first.number(l.arch.min_y as i64);
        first.number(l.arch.max_y as i64);
        proof {
            assert(first.fields@ =~= seq![
                "VYGI"@, "arch"@,
                signed_decimal(l.arch.min_x as int), signed_decimal(l.arch.max_x as int),
                signed_decimal(l.arch.min_y as int), signed_decimal(l.arch.max_y as int),
            ]);
        }
        out.push(first.text);
        let ghost part0 = seq![arch_line(*l)];
        assert(texts(out@) =~= part0);
        let rows: usize = l.arch.rows.len();
        let mut k: usize = 0;
        while k < rows
            invariant
                l.wf(),
                rows == l.arch.rows@.len(),
                rows <= i64::MAX,
                k <= rows,
                texts(out@) == part0 + Seq::new(k as nat, |k: int| row_line(k, l.arch.rows@[k])),
            decreases rows - k,
        {
            let r = &l.arch.rows[k];
            assert(l.arch.rows@[k as int].ok());
            let mut t = Line::start("VYGI");
            t.word("row");
            t.number(k as i64);
            t.number(r.left as i64);
            t.number(r.right() as i64);
            t.number(r.bottom as i64);
            t.number(r.height as i64);
            t.number(r.site_spacing as i64);
            t.word(r.orient.name());
            proof {
                assert(t.fields@ =~= seq![
                    "VYGI"@, "row"@, signed_decimal(k as int), signed_decimal(r.left as int), signed_decimal(r.end()), signed_decimal(r.bottom as int),
                    signed_decimal(r.height as int), signed_decimal(r.site_spacing as int), r.orient.text(),
                ]);
            }
            let ghost before = out@;
            let ghost line = t.text@;
            out.push(t.text);
            proof {
                assert(line == row_line(k as int, *r));
                assert(texts(out@) =~= texts(before).push(line));
            }
            k = k + 1;
            assert(texts(out@) =~= part0 + Seq::new(k as nat, |k: int| row_line(k, l.arch.rows@[k])));
        }
        let ghost part1 = part0 + Seq::new(rows as nat, |k: int| row_line(k, l.arch.rows@[k]));
        let n: usize = self.live.nodes.len();
        let mut k: usize = 0;
        while k < n
            invariant
                s == self.live@,
                n == s.nodes.len(),
                forall|k: int| 0 <= k < s.nodes.len() ==> (#[trigger] s.nodes[k]).id <= i64::MAX,
                k <= n,
                texts(out@) == part1 + Seq::new(k as nat, |k: int| node_line(s.nodes[k])),
            decreases n - k,
        {
            let nd = &self.live.nodes[k];
            assert(s.nodes[k as int].id <= i64::MAX);
            let mut t = Line::start("VYGI");
            t.word("node");
            t.number(nd.id as i64);
            t.word(match nd.kind {
                Kind::Cell => "C",
                Kind::Terminal => "T",
                Kind::Filler => "F",
            });
            t.word(nd.name.as_str());
            t.number(nd.left as i64);
            t.number(nd.bottom as i64);
            t.number(nd.width as i64);
            t.number(nd.height as i64);
            t.number(if nd.fixed { 1 } else { 0 });
            t.number(nd.group as i64);
            proof {
                assert(t.fields@ =~= seq![
                    "VYGI"@, "node"@, signed_decimal(nd.id as int), kind_letter(nd.kind), nd.name@, signed_decimal(nd.left as int),
                    signed_decimal(nd.bottom as int), signed_decimal(nd.width as int), signed_decimal(nd.height as int),
                    signed_decimal(if nd.fixed { 1 } else { 0 }), signed_decimal(nd.group as int),
                ]);
            }
            let ghost before = out@;
            let ghost line = t.text@;
            out.push(t.text);
            proof {
                assert(line == node_line(*nd));
                assert(texts(out@) =~= texts(before).push(line));
            }
            k = k + 1;
            assert(texts(out@) =~= part1 + Seq::new(k as nat, |k: int| node_line(s.nodes[k])));
        }
        let ghost part2 = part1 + Seq::new(n as nat, |k: int| node_line(s.nodes[k]));
        let m: usize = l.segments.len();
        let mut k: usize = 0;
        while k < m
            invariant
                l.wf(),
                l.ok(s),
                s == self.live@,
                *l == self.land,
                m == l.segments@.len(),
                forall|k: int| 0 <= k < l.segments@.len() ==> (#[trigger] l.segments@[k]).id <= i64::MAX,
                k <= m,
                texts(out@) == part2 + Seq::new(k as nat, |k: int| seg_line(l.segments@[k], s.cells[k])),
            decreases m - k,
        {
            let g = &l.segments[k];
            assert(l.segments@[k as int].id <= i64::MAX && l.segments@[k as int].row < l.arch.rows@.len());
            let list = &self.live.cells_in_seg[k];
            assert(s.cells[k as int] == list@);
            assert(crate::land::all_below(s.cells[k as int], l.count()));
            let mut t = Line::start("VYGI");
            t.word("seg");
            t.number(g.id as i64);
            t.number(g.row as i64);
            t.number(g.reg as i64);
            t.number(g.min_x as i64);
            t.number(g.max_x as i64);
            let mut cells: String = "".to_owned();
            proof {
                reveal_strlit("");
                assert(cells@ =~= Seq::<char>::empty());
            }
            let mut j: usize = 0;
            while j < list.len()
                invariant
                    l.wf(),
                    crate::land::all_below(list@, l.count()),
                    j <= list@.len(),
                    cells@ == comma_list(list@, j as int),
                decreases list@.len() - j,
            {
                if j > 0 {
                    cells.append(",");
                }
                assert(list@[j as int] < l.count());
                append_signed(&mut cells, list[j] as i128);
                assert(cells@ =~= comma_list(list@, j + 1));
                j = j + 1;
            }
            t.word(cells.as_str());
            proof {
                assert(t.fields@ =~= seq![
                    "VYGI"@, "seg"@, signed_decimal(g.id as int), signed_decimal(g.row as int), signed_decimal(g.reg as int),
                    signed_decimal(g.min_x as int), signed_decimal(g.max_x as int), comma_list(list@, list@.len() as int),
                ]);
            }
            let ghost before = out@;
            let ghost line = t.text@;
            out.push(t.text);
            proof {
                assert(line == seg_line(*g, list@));
                assert(texts(out@) =~= texts(before).push(line));
            }
            k = k + 1;
            assert(texts(out@) =~= part2 + Seq::new(k as nat, |k: int| seg_line(l.segments@[k], s.cells[k])));
        }
        assert(texts(out@) =~= lines_of(*l, s));
        out
    }
}

/// How a node is shown in a stage's line: its number, place and orientation.
pub open spec fn cell_entry(n: Node) -> Seq<char> {
    signed_decimal(n.id as int) + ":"@ + signed_decimal(n.left as int) + ":"@ + signed_decimal(n.bottom as int) + ":"@ + n.orient.text() + ";"@
}

/// How the movable ones of the first `n` nodes are shown.
pub open spec fn cell_entries(nodes: Seq<Node>, n: int) -> Seq<char>
    decreases n,
{
    if n <= 0 {
        Seq::empty()
    } else if movable(nodes[n - 1]) {
        cell_entries(nodes, n - 1) + cell_entry(nodes[n - 1])
    } else {
        cell_entries(nodes, n - 1)
    }
}

/// The line of a stage: its name and when, the next random number, and where the movable nodes are.
pub open spec fn stage_text(nodes: Seq<Node>, t: Twister, stage: Seq<char>, when: Seq<char>) -> Seq<char> {
    barred(seq!["VYGS"@, "stage"@, stage, when, "rng="@ + signed_decimal(t.value() as int), cell_entries(nodes, nodes.len() as int)])
}

/// The line of a stage.
pub fn stage_line(nodes: &Vec<Node>, rng: &Mt19937, stage: &str, when: &str) -> (r: String)
    requires
        rng@.wf(),
        forall|k: int| 0 <= k < nodes@.len() ==> (#[trigger] nodes@[k]).id <= i64::MAX,
    ensures
        r@ == stage_text(nodes@, rng@, stage@, when@),
{
    let mut ahead: Mt19937 = rng.copied();
    let draw: u32 = ahead.next_u32();
    let mut t = Line::start("VYGS");
    t.word("stage");
    t.word(stage);
    t.word(when);
    let mut next: String = "rng=".to_owned();
    append_signed(&mut next, draw as i128);
    t.word(next.as_str());
    let mut cells: String = "".to_owned();
    proof {
        reveal_strlit("");
        assert(cells@ =~= Seq::<char>::empty());
    }
    let mut k: usize = 0;
    while k < nodes.len()
        invariant
            forall|k: int| 0 <= k < nodes@.len() ==> (#[trigger] nodes@[k]).id <= i64::MAX,
            k <= nodes@.len(),
            cells@ == cell_entries(nodes@, k as int),
        decreases nodes@.len() - k,
    {
        let n = &nodes[k];
        assert(nodes@[k as int].id <= i64::MAX);
        if n.kind != Kind::Terminal && !n.fixed {
            let ghost c0 = cells@;
            append_signed(&mut cells, n.id as i128);
            cells.append(":");
            append_signed(&mut cells, n.left as i128);
            cells.append(":");
            append_signed(&mut cells, n.bottom as i128);
            cells.append(":");
            cells.append(n.orient.name());
            cells.append(";");
            assert(cells@ =~= c0 + cell_entry(*n));
        }
        k = k + 1;
    }
    t.word(cells.as_str());
    assert(t.fields@ =~= seq!["VYGS"@, "stage"@, stage@, when@, "rng="@ + signed_decimal(draw as int), cell_entries(nodes@, nodes@.len() as int)]);
    t.text
}

} // verus!
