//! Blockages, and the segments of rows between them that cells are improved in.

use vstd::prelude::*;
use crate::arith::{div_trunc, imax, imin, trunc_quot};
use crate::improve::{Kind, Node};
use crate::regions::{Box4, Group};
use crate::rows::{fuse, small, union_of, Arch, Row, Span, COORD_LIMIT};
use crate::sort::{is_stable_order, stable_order};

verus! {

/// What a blockage stands for.
#[derive(Debug, Clone, Copy, PartialEq, Eq, Structural)]
pub enum BlockageType {
    Placement,
    FixedInstance,
}

/// A span of a row that cells keep out of, and the padding to each side of it.
#[derive(Debug, Clone, Copy)]
pub struct Blockage {
    pub x_min: i32,
    pub x_max: i32,
    pub pad_left: i32,
    pub pad_right: i32,
    pub kind: BlockageType,
}

impl Blockage {
    /// Its left end, padded.
    pub open spec fn lo(self) -> int {
        self.x_min - self.pad_left
    }

    /// Its right end, padded.
    pub open spec fn hi(self) -> int {
        self.x_max + self.pad_right
    }

    /// Its numbers are within the limit.
    pub open spec fn ok(self) -> bool {
        small(self.x_min as int) && small(self.x_max as int) && small(self.pad_left as int) && small(self.pad_right as int)
    }

    fn padded_min(&self) -> (r: i32)
        requires
            self.ok(),
        ensures
            r == self.lo(),
    {
        self.x_min - self.pad_left
    }

    fn padded_max(&self) -> (r: i32)
        requires
            self.ok(),
        ensures
            r == self.hi(),
    {
        self.x_max + self.pad_right
    }
}

/// A part of a row that cells are placed in.
#[derive(Debug, Clone, Copy)]
pub struct Segment {
    pub id: usize,
    pub row: usize,
    /// The region it belongs to, -1 for none.
    pub reg: i32,
    pub min_x: i32,
    pub max_x: i32,
}

// ── blockages ────────────────────────────────────────────────────────────────────────────────

/// Whether a span of Y overlaps a row.
pub open spec fn crosses(ymin: int, ymax: int, r: Row) -> bool {
    ymin < r.bottom + r.height && ymax > r.bottom
}

/// The blockage that a fixed node makes.
pub open spec fn node_block(a: Arch, n: Node, pad: (i32, i32)) -> Blockage {
    Blockage {
        x_min: imax(a.min_x as int, n.left as int) as i32,
        x_max: imin(a.max_x as int, n.left + n.width) as i32,
        pad_left: pad.0,
        pad_right: pad.1,
        kind: BlockageType::FixedInstance,
    }
}

/// Whether a fixed node blocks a row.
pub open spec fn node_blocks(a: Arch, n: Node, r: Row) -> bool {
    n.kind != Kind::Terminal && crosses(imax(a.min_y as int, n.bottom as int), imin(a.max_y as int, n.bottom + n.height), r)
}

/// The blockage that a box makes.
pub open spec fn box_block(a: Arch, b: Box4) -> Blockage {
    Blockage {
        x_min: imax(a.min_x as int, b.0 as int) as i32,
        x_max: imin(a.max_x as int, b.2 as int) as i32,
        pad_left: 0,
        pad_right: 0,
        kind: BlockageType::Placement,
    }
}

/// Whether a box blocks a row.
pub open spec fn box_blocks(a: Arch, b: Box4, r: Row) -> bool {
    crosses(imax(a.min_y as int, b.1 as int), imin(a.max_y as int, b.3 as int), r)
}

/// The blockages of a row by the first `n` fixed nodes.
pub open spec fn node_blockages(a: Arch, nodes: Seq<Node>, fixed: Seq<usize>, pads: Seq<(i32, i32)>, r: Row, n: int) -> Seq<Blockage>
    decreases n,
{
    if n <= 0 {
        Seq::empty()
    } else {
        let s = node_blockages(a, nodes, fixed, pads, r, n - 1);
        let f = fixed[n - 1] as int;
        if node_blocks(a, nodes[f], r) { s.push(node_block(a, nodes[f], pads[f])) } else { s }
    }
}

/// The blockages of a row by the fixed nodes and the first `n` boxes.
pub open spec fn raw_blockages(a: Arch, nodes: Seq<Node>, fixed: Seq<usize>, pads: Seq<(i32, i32)>, boxes: Seq<Box4>, r: Row, n: int) -> Seq<Blockage>
    decreases n,
{
    if n <= 0 {
        node_blockages(a, nodes, fixed, pads, r, fixed.len() as int)
    } else {
        let s = raw_blockages(a, nodes, fixed, pads, boxes, r, n - 1);
        if box_blocks(a, boxes[n - 1], r) { s.push(box_block(a, boxes[n - 1])) } else { s }
    }
}

/// The number that orders blockages by their padded left end and then by their padded right end.
pub open spec fn block_key(b: Blockage) -> i64 {
    (b.lo() * 0x1_0000_0000 + b.hi()) as i64
}

/// The keys of some blockages.
pub open spec fn block_keys(v: Seq<Blockage>) -> Seq<i64> {
    Seq::new(v.len(), |k: int| block_key(v[k]))
}

/// `s` are some blockages from left to right, equal ones in their order.
pub open spec fn is_by_left(v: Seq<Blockage>, s: Seq<Blockage>) -> bool {
    exists|order: Seq<usize>| #[trigger] is_stable_order(block_keys(v), order) && s == Seq::new(order.len(), |k: int| v[order[k] as int])
}

/// The first `n` of some ordered blockages, those that touch made one.
pub open spec fn joined(s: Seq<Blockage>, n: int) -> Seq<Blockage>
    decreases n,
{
    if n <= 0 {
        Seq::empty()
    } else if n == 1 {
        seq![s[0]]
    } else {
        let t = joined(s, n - 1);
        let top = t.last();
        let b = s[n - 1];
        if top.hi() < b.lo() {
            t.push(b)
        } else if top.hi() < b.hi() {
            t.update(t.len() - 1, Blockage { x_max: b.x_max, pad_right: b.pad_right, ..top })
        } else {
            t
        }
    }
}

/// `out` are some blockages from left to right, those that touch made one.
pub open spec fn is_joined(v: Seq<Blockage>, out: Seq<Blockage>) -> bool {
    exists|s: Seq<Blockage>| #[trigger] is_by_left(v, s) && out == joined(s, s.len() as int)
}

/// Every blockage's numbers are within the limit.
pub open spec fn blocks_ok(v: Seq<Blockage>) -> bool {
    forall|k: int| 0 <= k < v.len() ==> (#[trigger] v[k]).ok()
}

fn join_blockages(v: &Vec<Blockage>) -> (out: Vec<Blockage>)
    requires
        blocks_ok(v@),
    ensures
        is_joined(v@, out@),
        blocks_ok(out@),
        v@.len() > 0 ==> out@.len() > 0,
{
    let mut keys: Vec<i64> = Vec::new();
    let mut k: usize = 0;
    while k < v.len()
        invariant
            k <= v@.len(),
            blocks_ok(v@),
            keys@ == block_keys(v@).subrange(0, k as int),
        decreases v@.len() - k,
    {
        assert(v@[k as int].ok());
        keys.push(v[k].padded_min() as i64 * 0x1_0000_0000 + v[k].padded_max() as i64);
        k = k + 1;
        assert(keys@ =~= block_keys(v@).subrange(0, k as int));
    }
    assert(keys@ =~= block_keys(v@));
    let order = stable_order(&keys);
    let mut s: Vec<Blockage> = Vec::new();
    let mut i: usize = 0;
    while i < order.len()
        invariant
            is_stable_order(keys@, order@),
            keys@.len() == v@.len(),
            i <= order@.len(),
            blocks_ok(v@),
            blocks_ok(s@),
            s@ == Seq::new(i as nat, |k: int| v@[order@[k] as int]),
        decreases order@.len() - i,
    {
        let at: usize = order[i];
        assert(v@[at as int].ok());
        s.push(v[at]);
        i = i + 1;
        assert(s@ =~= Seq::new(i as nat, |k: int| v@[order@[k] as int]));
    }
    assert(s@ =~= Seq::new(order@.len(), |k: int| v@[order@[k] as int]));
    assert(is_by_left(v@, s@));
    let mut out: Vec<Blockage> = Vec::new();
    if s.len() == 0 {
        assert(out@ =~= joined(s@, 0));
        return out;
    }
    out.push(s[0]);
    assert(s@[0].ok());
    assert(out@ =~= joined(s@, 1));
    let mut n: usize = 1;
    while n < s.len()
        invariant
            1 <= n <= s@.len(),
            blocks_ok(s@),
            blocks_ok(out@),
            out@.len() > 0,
            out@ == joined(s@, n as int),
        decreases s@.len() - n,
    {
        let last: usize = out.len() - 1;
        let mut top: Blockage = out[last];
        let b: Blockage = s[n];
        assert(out@[last as int].ok() && s@[n as int].ok());
        if top.padded_max() < b.padded_min() {
            out.push(b);
        } else if top.padded_max() < b.padded_max() {
            top.pad_right = b.pad_right;
            top.x_max = b.x_max;
            out.set(last, top);
        }
        n = n + 1;
    }
    out
}

/// The node's numbers are within the limit.
pub open spec fn node_ok(n: Node) -> bool {
    &&& small(n.left as int) && small(n.bottom as int)
    &&& small(n.left + n.width) && small(n.bottom + n.height)
    &&& 0 <= n.width && 0 <= n.height
}

/// `out` holds, for every row, the blockages by fixed nodes and by boxes, joined.
pub open spec fn are_blockages(a: Arch, nodes: Seq<Node>, fixed: Seq<usize>, pads: Seq<(i32, i32)>, boxes: Seq<Box4>, out: Seq<Vec<Blockage>>) -> bool {
    &&& out.len() == a.rows@.len()
    &&& forall|r: int| 0 <= r < out.len() ==> is_joined(raw_blockages(a, nodes, fixed, pads, boxes, a.rows@[r], boxes.len() as int), (#[trigger] out[r])@)
}

fn row_blockages(a: &Arch, nodes: &Vec<Node>, fixed: &Vec<usize>, pads: &Vec<(i32, i32)>, boxes: &Vec<Box4>, row: &Row) -> (v: Vec<Blockage>)
    requires
        a.wf(),
        row.ok(),
        pads@.len() == nodes@.len(),
        forall|k: int| 0 <= k < fixed@.len() ==> #[trigger] fixed@[k] < nodes@.len() && node_ok(nodes@[fixed@[k] as int]),
        forall|k: int| 0 <= k < pads@.len() ==> small((#[trigger] pads@[k]).0 as int) && small(pads@[k].1 as int),
        forall|k: int| 0 <= k < boxes@.len() ==> small((#[trigger] boxes@[k]).0 as int) && small(boxes@[k].2 as int),
    ensures
        v@ == raw_blockages(*a, nodes@, fixed@, pads@, boxes@, *row, boxes@.len() as int),
        blocks_ok(v@),
{
    let mut v: Vec<Blockage> = Vec::new();
    let mut k: usize = 0;
    while k < fixed.len()
        invariant
            a.wf(),
            row.ok(),
            pads@.len() == nodes@.len(),
            forall|k: int| 0 <= k < fixed@.len() ==> #[trigger] fixed@[k] < nodes@.len() && node_ok(nodes@[fixed@[k] as int]),
            forall|k: int| 0 <= k < pads@.len() ==> small((#[trigger] pads@[k]).0 as int) && small(pads@[k].1 as int),
            k <= fixed@.len(),
            v@ == node_blockages(*a, nodes@, fixed@, pads@, *row, k as int),
            blocks_ok(v@),
        decreases fixed@.len() - k,
    {
        let f: usize = fixed[k];
        let n = &nodes[f];
        assert(node_ok(nodes@[fixed@[k as int] as int]));
        let ymin: i32 = if a.min_y >= n.bottom { a.min_y } else { n.bottom };
        let top: i32 = n.bottom + n.height;
        let ymax: i32 = if a.max_y <= top { a.max_y } else { top };
        if n.kind != Kind::Terminal && ymin < row.top() && ymax > row.bottom {
            let right: i32 = n.left + n.width;
            let p = pads[f];
            let b = Blockage {
                x_min: if a.min_x >= n.left { a.min_x } else { n.left },
                x_max: if a.max_x <= right { a.max_x } else { right },
                pad_left: p.0,
                pad_right: p.1,
                kind: BlockageType::FixedInstance,
            };
            v.push(b);
        }
        k = k + 1;
    }
    let mut j: usize = 0;
    while j < boxes.len()
        invariant
            a.wf(),
            row.ok(),
            forall|k: int| 0 <= k < boxes@.len() ==> small((#[trigger] boxes@[k]).0 as int) && small(boxes@[k].2 as int),
            j <= boxes@.len(),
            v@ == raw_blockages(*a, nodes@, fixed@, pads@, boxes@, *row, j as int),
            blocks_ok(v@),
        decreases boxes@.len() - j,
    {
        let b = boxes[j];
        assert(small(boxes@[j as int].0 as int));
        let ymin: i32 = if a.min_y >= b.1 { a.min_y } else { b.1 };
        let ymax: i32 = if a.max_y <= b.3 { a.max_y } else { b.3 };
        if ymin < row.top() && ymax > row.bottom {
            v.push(Blockage {
                x_min: if a.min_x >= b.0 { a.min_x } else { b.0 },
                x_max: if a.max_x <= b.2 { a.max_x } else { b.2 },
                pad_left: 0,
                pad_right: 0,
                kind: BlockageType::Placement,
            });
        }
        j = j + 1;
    }
    v
}

/// Per row, the spans that fixed nodes, with their padding, and hard blockages keep cells out of,
/// from left to right, those that touch made one.
pub fn find_blockages(a: &Arch, nodes: &Vec<Node>, fixed: &Vec<usize>, pads: &Vec<(i32, i32)>, boxes: &Vec<Box4>) -> (out: Vec<Vec<Blockage>>)
    requires
        a.wf(),
        pads@.len() == nodes@.len(),
        forall|k: int| 0 <= k < fixed@.len() ==> #[trigger] fixed@[k] < nodes@.len() && node_ok(nodes@[fixed@[k] as int]),
        forall|k: int| 0 <= k < pads@.len() ==> small((#[trigger] pads@[k]).0 as int) && small(pads@[k].1 as int),
        forall|k: int| 0 <= k < boxes@.len() ==> small((#[trigger] boxes@[k]).0 as int) && small(boxes@[k].2 as int),
    ensures
        are_blockages(*a, nodes@, fixed@, pads@, boxes@, out@),
        forall|r: int| 0 <= r < out@.len() ==> blocks_ok((#[trigger] out@[r])@),
{
    let mut out: Vec<Vec<Blockage>> = Vec::new();
    let mut r: usize = 0;
    while r < a.rows.len()
        invariant
            a.wf(),
            pads@.len() == nodes@.len(),
            forall|k: int| 0 <= k < fixed@.len() ==> #[trigger] fixed@[k] < nodes@.len() && node_ok(nodes@[fixed@[k] as int]),
            forall|k: int| 0 <= k < pads@.len() ==> small((#[trigger] pads@[k]).0 as int) && small(pads@[k].1 as int),
            forall|k: int| 0 <= k < boxes@.len() ==> small((#[trigger] boxes@[k]).0 as int) && small(boxes@[k].2 as int),
            r <= a.rows@.len(),
            out@.len() == r,
            forall|q: int| 0 <= q < r ==> is_joined(raw_blockages(*a, nodes@, fixed@, pads@, boxes@, a.rows@[q], boxes@.len() as int), (#[trigger] out@[q])@),
            forall|q: int| 0 <= q < r ==> blocks_ok((#[trigger] out@[q])@),
        decreases a.rows@.len() - r,
    {
        assert(a.rows@[r as int].ok());
        let v = row_blockages(a, nodes, fixed, pads, boxes, &a.rows[r]);
        out.push(join_blockages(&v));
        r = r + 1;
    }
    out
}

// ── segments ─────────────────────────────────────────────────────────────────────────────────

/// Segments, and the numbers of those in each row.
pub ghost struct Cuts {
    pub segs: Seq<Segment>,
    pub ids: Seq<Seq<usize>>,
}

impl Cuts {
    /// With one more segment, at the end of its row's list.
    pub open spec fn with(self, row: int, lo: int, hi: int, reg: int) -> Cuts {
        let id = self.segs.len() as usize;
        Cuts {
            segs: self.segs.push(Segment { id, row: row as usize, reg: reg as i32, min_x: lo as i32, max_x: hi as i32 }),
            ids: self.ids.update(row, self.ids[row].push(id)),
        }
    }

    /// With the ends and the region of a segment changed.
    pub open spec fn set(self, sid: int, lo: int, hi: int, reg: int) -> Cuts {
        Cuts { segs: self.segs.update(sid, Segment { min_x: lo as i32, max_x: hi as i32, reg: reg as i32, ..self.segs[sid] }), ids: self.ids }
    }

    /// Rows list segments there are, and these are within the limit.
    pub open spec fn ok(self, rows: int) -> bool {
        &&& self.ids.len() == rows
        &&& forall|r: int, k: int| 0 <= r < rows && 0 <= k < self.ids[r].len() ==> #[trigger] self.ids[r][k] < self.segs.len()
        &&& forall|k: int| 0 <= k < self.segs.len() ==> (#[trigger] self.segs[k]).row < rows && small(self.segs[k].min_x as int) && small(self.segs[k].max_x as int)
            && self.segs[k].id == k
    }
}

/// The space between two blockages of a row, number `k` from the left.
pub open spec fn space(lo: int, hi: int, b: Seq<Blockage>, k: int) -> (int, int) {
    (if k == 0 { lo } else { imax(lo, b[k - 1].hi()) }, if k == b.len() { hi } else { imin(hi, b[k].lo()) })
}

/// The segments with the first `n` spaces of a row added, those that have a width.
pub open spec fn with_spaces(c: Cuts, row: int, lo: int, hi: int, b: Seq<Blockage>, n: int) -> Cuts
    decreases n,
{
    if n <= 0 {
        c
    } else {
        let d = with_spaces(c, row, lo, hi, b, n - 1);
        let s = space(lo, hi, b, n - 1);
        if s.1 > s.0 { d.with(row, s.0, s.1, -1) } else { d }
    }
}

/// The spaces of the first `n` rows as segments.
pub open spec fn row_segments(a: Arch, blocks: Seq<Vec<Blockage>>, n: int) -> Cuts
    decreases n,
{
    if n <= 0 {
        Cuts { segs: Seq::empty(), ids: Seq::new(a.rows@.len(), |k: int| Seq::empty()) }
    } else {
        let r = a.rows@[n - 1];
        with_spaces(row_segments(a, blocks, n - 1), n - 1, imax(a.min_x as int, r.left as int), imin(a.max_x as int, r.end()), blocks[n - 1]@,
            blocks[n - 1]@.len() as int + 1)
    }
}

/// The site boundary of a row at or toward its start from `x`.
pub open spec fn site_of(r: Row, x: int) -> int {
    r.left + trunc_quot(x - r.left, r.site_spacing as int) * r.site_spacing
}

/// The site boundary of a row at or after `x`.
pub open spec fn site_up(r: Row, x: int) -> int {
    if site_of(r, x) < x { site_of(r, x) + r.site_spacing } else { site_of(r, x) }
}

/// The site boundary of a row at `x`, or one further.
pub open spec fn site_past(r: Row, x: int) -> int {
    if site_of(r, x) != x { site_of(r, x) + r.site_spacing } else { site_of(r, x) }
}

/// Whether a box covers the whole height of row number `r`, the rows taken as stacked.
pub open spec fn spans_row(a: Arch, b: Box4, r: int) -> bool {
    let lb = a.min_y + r * a.rows@[0].height;
    b.3 >= lb + a.rows@[0].height && b.1 <= lb
}

/// The sites of a row that the first `n` boxes cover.
pub open spec fn box_spans(a: Arch, rects: Seq<Box4>, r: int, n: int) -> Seq<Span>
    decreases n,
{
    if n <= 0 {
        Seq::empty()
    } else {
        let s = box_spans(a, rects, r, n - 1);
        let b = rects[n - 1];
        let (lo, hi) = (site_of(a.rows@[r], b.0 as int), site_past(a.rows@[r], b.2 as int));
        if spans_row(a, b, r) && hi > lo { s.push(Span { lo: lo as i32, hi: hi as i32 }) } else { s }
    }
}

/// The spans of a row that a region covers.
pub open spec fn region_spans(a: Arch, g: Group, r: int) -> Seq<Span> {
    union_of(box_spans(a, g.rects@, r, g.rects@.len() as int))
}

/// The segments after one of them was cut at a span that a region has.
pub open spec fn cut_at(c: Cuts, row: int, sid: int, iv: Span, reg: int) -> Cuts {
    let g = c.segs[sid];
    let (sl, sr) = (g.min_x as int, g.max_x as int);
    let (il, ir) = (iv.lo as int, iv.hi as int);
    if ir <= sl || il >= sr {
        c
    } else if il <= sl && ir >= sr {
        c.set(sid, sl, sr, reg)
    } else if il > sl && ir >= sr {
        c.set(sid, sl, il, g.reg as int).with(row, il, sr, reg)
    } else if ir < sr && il <= sl {
        c.set(sid, ir, sr, g.reg as int).with(row, sl, ir, reg)
    } else {
        c.set(sid, sl, il, g.reg as int).with(row, il, ir, reg).with(row, ir, sr, g.reg as int)
    }
}

/// The segments after the first `n` of a row's were cut at a span.
pub open spec fn cut_upto(c: Cuts, row: int, n: int, iv: Span, reg: int) -> Cuts
    decreases n,
{
    if n <= 0 {
        c
    } else {
        let d = cut_upto(c, row, n - 1, iv, reg);
        cut_at(d, row, d.ids[row][n - 1] as int, iv, reg)
    }
}

/// The segments after a row's were cut at the first `n` spans of a region.
pub open spec fn cut_row(c: Cuts, row: int, ivs: Seq<Span>, n: int, reg: int) -> Cuts
    decreases n,
{
    if n <= 0 {
        c
    } else {
        let d = cut_row(c, row, ivs, n - 1, reg);
        cut_upto(d, row, d.ids[row].len() as int, ivs[n - 1], reg)
    }
}

/// The segments after those of the first `n` rows were cut by a region.
pub open spec fn cut_rows_by(c: Cuts, a: Arch, g: Group, n: int, reg: int) -> Cuts
    decreases n,
{
    if n <= 0 {
        c
    } else {
        let ivs = region_spans(a, g, n - 1);
        cut_row(cut_rows_by(c, a, g, n - 1, reg), n - 1, ivs, ivs.len() as int, reg)
    }
}

/// The segments cut by the first `n` regions.
pub open spec fn cut_groups(c: Cuts, a: Arch, groups: Seq<Group>, n: int) -> Cuts
    decreases n,
{
    if n <= 0 { c } else { cut_rows_by(cut_groups(c, a, groups, n - 1), a, groups[n - 1], a.rows@.len() as int, n - 1) }
}

/// The segments with their ends on sites.
pub open spec fn on_sites(a: Arch, segs: Seq<Segment>) -> Seq<Segment> {
    Seq::new(segs.len(), |k: int| {
        let r = a.rows@[segs[k].row as int];
        Segment { min_x: site_up(r, segs[k].min_x as int) as i32, max_x: site_of(r, segs[k].max_x as int) as i32, ..segs[k] }
    })
}

/// The segments of a design: the spaces between blockages, cut by regions, with their ends on sites.
pub open spec fn segments_of(a: Arch, blocks: Seq<Vec<Blockage>>, groups: Seq<Group>) -> Cuts {
    let c = cut_groups(row_segments(a, blocks, a.rows@.len() as int), a, groups, groups.len() as int);
    Cuts { segs: on_sites(a, c.segs), ids: c.ids }
}

/// Lists of numbers as sequences.
pub open spec fn lists(v: Seq<Vec<usize>>) -> Seq<Seq<usize>> {
    Seq::new(v.len(), |k: int| v[k]@)
}

/// A site boundary toward the start is between the row's start and the coordinate.
pub proof fn lemma_site_of(r: Row, x: int)
    requires
        r.ok(),
    ensures
        x >= r.left ==> r.left <= site_of(r, x) <= x,
        x < r.left ==> x <= site_of(r, x) <= r.left,
        x - r.site_spacing < site_of(r, x) < x + r.site_spacing,
{
    let sp = r.site_spacing as int;
    let d = x - r.left;
    let q = trunc_quot(d, sp);
    if d >= 0 {
        crate::arith::lemma_quot_bound(d, sp);
    } else {
        crate::arith::lemma_quot_bound(-d, sp);
        assert(q * sp == -(((-d) / sp) * sp)) by (nonlinear_arith)
            requires q == -((-d) / sp);
    }
}

fn site_at(r: &Row, x: i32) -> (v: i64)
    requires
        r.ok(),
        -4 * COORD_LIMIT <= x <= 4 * COORD_LIMIT,
    ensures
        v == site_of(*r, x as int),
        -6 * COORD_LIMIT <= v <= 6 * COORD_LIMIT,
{
    proof {
        lemma_site_of(*r, x as int);
        let d = x - r.left;
        let sp = r.site_spacing as int;
        if d >= 0 {
            crate::arith::lemma_quot_bound(d, sp);
        } else {
            crate::arith::lemma_quot_bound(-d, sp);
        }
        let q = trunc_quot(d, sp);
        assert(-0x1_0000_0000 * 0x1000_0000 <= q * sp <= 0x1_0000_0000 * 0x1000_0000) by (nonlinear_arith)
            requires -0x1_0000_0000 <= q <= 0x1_0000_0000, 0 < sp <= 0x1000_0000;
    }
    let q: i64 = div_trunc(x as i64 - r.left as i64, r.site_spacing as i64);
    r.left as i64 + q * r.site_spacing as i64
}

fn add_segment(segs: &mut Vec<Segment>, in_row: &mut Vec<Vec<usize>>, row: usize, lo: i32, hi: i32, reg: i32)
    requires
        (Cuts { segs: old(segs)@, ids: lists(old(in_row)@) }).ok(old(in_row)@.len() as int),
        row < old(in_row)@.len(),
        small(lo as int),
        small(hi as int),
    ensures
        (Cuts { segs: final(segs)@, ids: lists(final(in_row)@) }) == (Cuts { segs: old(segs)@, ids: lists(old(in_row)@) }).with(row as int, lo as int, hi as int, reg as int),
        (Cuts { segs: final(segs)@, ids: lists(final(in_row)@) }).ok(old(in_row)@.len() as int),
        final(in_row)@.len() == old(in_row)@.len(),
{
    let ghost c0 = Cuts { segs: segs@, ids: lists(in_row@) };
    let id: usize = segs.len();
    segs.push(Segment { id, row, reg, min_x: lo, max_x: hi });
    in_row[row].push(id);
    proof {
        let c = Cuts { segs: segs@, ids: lists(in_row@) };
        let w = c0.with(row as int, lo as int, hi as int, reg as int);
        assert(c.ids =~= w.ids);
        assert(c.segs =~= w.segs);
        assert forall|r: int, k: int| 0 <= r < in_row@.len() && 0 <= k < c.ids[r].len() implies #[trigger] c.ids[r][k] < c.segs.len() by {
            if r != row || k < c0.ids[r].len() {
                assert(c.ids[r][k] == c0.ids[r][k]);
            }
        }
    }
}

fn row_spaces(a: &Arch, r: usize, b: &Vec<Blockage>, segs: &mut Vec<Segment>, in_row: &mut Vec<Vec<usize>>)
    requires
        a.wf(),
        r < a.rows@.len(),
        old(in_row)@.len() == a.rows@.len(),
        blocks_ok(b@),
        (Cuts { segs: old(segs)@, ids: lists(old(in_row)@) }).ok(old(in_row)@.len() as int),
    ensures
        (Cuts { segs: final(segs)@, ids: lists(final(in_row)@) }) == with_spaces(Cuts { segs: old(segs)@, ids: lists(old(in_row)@) }, r as int,
            imax(a.min_x as int, a.rows@[r as int].left as int), imin(a.max_x as int, a.rows@[r as int].end()), b@, b@.len() as int + 1),
        (Cuts { segs: final(segs)@, ids: lists(final(in_row)@) }).ok(old(in_row)@.len() as int),
        final(in_row)@.len() == old(in_row)@.len(),
{
    let ghost c0 = Cuts { segs: segs@, ids: lists(in_row@) };
    assert(a.rows@[r as int].ok());
    let rx: i32 = a.rows[r].right();
    let lx: i32 = a.rows[r].left;
    let lo: i32 = if a.min_x >= lx { a.min_x } else { lx };
    let hi: i32 = if a.max_x <= rx { a.max_x } else { rx };
    let n: usize = b.len();
    let mut k: usize = 0;
    loop
        invariant_except_break
            (Cuts { segs: segs@, ids: lists(in_row@) }) == with_spaces(c0, r as int, lo as int, hi as int, b@, k as int),
        invariant
            n == b@.len(),
            k <= n,
            r < in_row@.len(),
            in_row@.len() == a.rows@.len(),
            blocks_ok(b@),
            small(lo as int),
            small(hi as int),
            (Cuts { segs: segs@, ids: lists(in_row@) }).ok(in_row@.len() as int),
        ensures
            in_row@.len() == a.rows@.len(),
            (Cuts { segs: segs@, ids: lists(in_row@) }).ok(in_row@.len() as int),
            (Cuts { segs: segs@, ids: lists(in_row@) }) == with_spaces(c0, r as int, lo as int, hi as int, b@, n + 1),
        decreases n - k,
    {
        let mut x1: i32 = lo;
        if k > 0 {
            assert(b@[k - 1].ok());
            let e: i32 = b[k - 1].padded_max();
            if e > x1 {
                x1 = e;
            }
        }
        let mut x2: i32 = hi;
        if k < n {
            assert(b@[k as int].ok());
            let s: i32 = b[k].padded_min();
            if s < x2 {
                x2 = s;
            }
        }
        if x2 > x1 {
            assert(small(x1 as int) && small(x2 as int));
            add_segment(segs, in_row, r, x1, x2, -1);
        }
        if k == n {
            break;
        }
        k = k + 1;
    }
}

fn cut_one(segs: &mut Vec<Segment>, in_row: &mut Vec<Vec<usize>>, row: usize, sid: usize, iv: Span, reg: i32)
    requires
        (Cuts { segs: old(segs)@, ids: lists(old(in_row)@) }).ok(old(in_row)@.len() as int),
        row < old(in_row)@.len(),
        sid < old(segs)@.len(),
    ensures
        (Cuts { segs: final(segs)@, ids: lists(final(in_row)@) }) == cut_at(Cuts { segs: old(segs)@, ids: lists(old(in_row)@) }, row as int, sid as int, iv, reg as int),
        (Cuts { segs: final(segs)@, ids: lists(final(in_row)@) }).ok(old(in_row)@.len() as int),
        final(in_row)@.len() == old(in_row)@.len(),
{
    let ghost c0 = Cuts { segs: segs@, ids: lists(in_row@) };
    let g: Segment = segs[sid];
    assert(small(c0.segs[sid as int].min_x as int) && small(c0.segs[sid as int].max_x as int));
    let sl: i32 = g.min_x;
    let sr: i32 = g.max_x;
    if iv.hi <= sl || iv.lo >= sr {
        return;
    }
    let mut h: Segment = g;
    if iv.lo <= sl && iv.hi >= sr {
        h.reg = reg;
        segs.set(sid, h);
        proof {
            assert(Cuts { segs: segs@, ids: lists(in_row@) } == c0.set(sid as int, sl as int, sr as int, reg as int));
        }
    } else if iv.lo > sl && iv.hi >= sr {
        h.max_x = iv.lo;
        segs.set(sid, h);
        assert(Cuts { segs: segs@, ids: lists(in_row@) } == c0.set(sid as int, sl as int, iv.lo as int, g.reg as int));
        add_segment(segs, in_row, row, iv.lo, sr, reg);
    } else if iv.hi < sr && iv.lo <= sl {
        h.min_x = iv.hi;
        segs.set(sid, h);
        assert(Cuts { segs: segs@, ids: lists(in_row@) } == c0.set(sid as int, iv.hi as int, sr as int, g.reg as int));
        add_segment(segs, in_row, row, sl, iv.hi, reg);
    } else {
        h.max_x = iv.lo;
        segs.set(sid, h);
        assert(Cuts { segs: segs@, ids: lists(in_row@) } == c0.set(sid as int, sl as int, iv.lo as int, g.reg as int));
        add_segment(segs, in_row, row, iv.lo, iv.hi, reg);
        add_segment(segs, in_row, row, iv.hi, sr, g.reg);
    }
}

proof fn lemma_cut_upto_grows(c: Cuts, row: int, n: int, iv: Span, reg: int)
    requires
        0 <= row < c.ids.len(),
        0 <= n <= c.ids[row].len(),
    ensures
        cut_upto(c, row, n, iv, reg).ids.len() == c.ids.len(),
        cut_upto(c, row, n, iv, reg).ids[row].len() >= c.ids[row].len(),
    decreases n,
{
    if n > 0 {
        lemma_cut_upto_grows(c, row, n - 1, iv, reg);
    }
}

/// Cut a row's segments at the spans of a region.
fn cut_row_by(segs: &mut Vec<Segment>, in_row: &mut Vec<Vec<usize>>, row: usize, ivs: &Vec<Span>, reg: i32)
    requires
        (Cuts { segs: old(segs)@, ids: lists(old(in_row)@) }).ok(old(in_row)@.len() as int),
        row < old(in_row)@.len(),
    ensures
        (Cuts { segs: final(segs)@, ids: lists(final(in_row)@) }) == cut_row(Cuts { segs: old(segs)@, ids: lists(old(in_row)@) }, row as int, ivs@, ivs@.len() as int, reg as int),
        (Cuts { segs: final(segs)@, ids: lists(final(in_row)@) }).ok(old(in_row)@.len() as int),
        final(in_row)@.len() == old(in_row)@.len(),
{
    let ghost c0 = Cuts { segs: segs@, ids: lists(in_row@) };
    let rows: usize = in_row.len();
    let mut i: usize = 0;
    while i < ivs.len()
        invariant
            i <= ivs@.len(),
            row < rows,
            in_row@.len() == rows,
            (Cuts { segs: segs@, ids: lists(in_row@) }).ok(rows as int),
            (Cuts { segs: segs@, ids: lists(in_row@) }) == cut_row(c0, row as int, ivs@, i as int, reg as int),
        decreases ivs@.len() - i,
    {
        let ghost d = Cuts { segs: segs@, ids: lists(in_row@) };
        let iv: Span = ivs[i];
        // The parts that are cut off lie in the span or beside it, so that they need no cut.
        let n: usize = in_row[row].len();
        let mut s: usize = 0;
        while s < n
            invariant
                s <= n,
                row < rows,
                n == d.ids[row as int].len(),
                d.ids.len() == rows,
                in_row@.len() == rows,
                (Cuts { segs: segs@, ids: lists(in_row@) }).ok(rows as int),
                (Cuts { segs: segs@, ids: lists(in_row@) }) == cut_upto(d, row as int, s as int, iv, reg as int),
            decreases n - s,
        {
            proof {
                lemma_cut_upto_grows(d, row as int, s as int, iv, reg as int);
                assert(lists(in_row@)[row as int] == in_row@[row as int]@);
            }
            let sid: usize = in_row[row][s];
            assert(lists(in_row@)[row as int][s as int] == sid);
            cut_one(segs, in_row, row, sid, iv, reg);
            s = s + 1;
        }
        i = i + 1;
    }
}

/// Per row, the spans on sites that a region covers over the row's whole height.
pub fn find_region_intervals(a: &Arch, g: &Group) -> (out: Vec<Vec<Span>>)
    requires
        a.wf(),
        a.rows@.len() * a.rows@[0].height <= COORD_LIMIT,
        forall|k: int| 0 <= k < g.rects@.len() ==> small((#[trigger] g.rects@[k]).0 as int) && small(g.rects@[k].2 as int),
    ensures
        out@.len() == a.rows@.len(),
        forall|r: int| 0 <= r < out@.len() ==> (#[trigger] out@[r])@ == region_spans(*a, *g, r),
{
    let mut out: Vec<Vec<Span>> = Vec::new();
    let h: i32 = a.rows[0].height;
    assert(a.rows@[0].ok());
    let mut r: usize = 0;
    while r < a.rows.len()
        invariant
            a.wf(),
            h == a.rows@[0].height,
            h > 0,
            a.rows@.len() * h <= COORD_LIMIT,
            forall|k: int| 0 <= k < g.rects@.len() ==> small((#[trigger] g.rects@[k]).0 as int) && small(g.rects@[k].2 as int),
            r <= a.rows@.len(),
            out@.len() == r,
            forall|q: int| 0 <= q < r ==> (#[trigger] out@[q])@ == region_spans(*a, *g, q),
        decreases a.rows@.len() - r,
    {
        proof {
            let (x, n, y) = (r as int, a.rows@.len() as int, h as int);
            assert(0 <= x * y <= n * y) by (nonlinear_arith)
                requires 0 <= x <= n, y > 0;
            assert(a.rows@[r as int].ok());
        }
        let lb: i32 = a.min_y + r as i32 * h;
        let ub: i32 = lb + h;
        let row: &Row = &a.rows[r];
        let mut spans: Vec<Span> = Vec::new();
        let mut k: usize = 0;
        while k < g.rects.len()
            invariant
                row.ok(),
                a.wf(),
                r < a.rows@.len(),
                *row == a.rows@[r as int],
                h == a.rows@[0].height,
                lb == a.min_y + r * h,
                ub == lb + h,
                forall|k: int| 0 <= k < g.rects@.len() ==> small((#[trigger] g.rects@[k]).0 as int) && small(g.rects@[k].2 as int),
                k <= g.rects@.len(),
                spans@ == box_spans(*a, g.rects@, r as int, k as int),
            decreases g.rects@.len() - k,
        {
            let b = g.rects[k];
            assert(small(g.rects@[k as int].0 as int));
            if b.3 >= ub && b.1 <= lb {
                let lo: i64 = site_at(row, b.0);
                let mut hi: i64 = site_at(row, b.2);
                if hi != b.2 as i64 {
                    hi = hi + row.site_spacing as i64;
                }
                if hi > lo {
                    proof {
                        lemma_site_of(*row, b.0 as int);
                        lemma_site_of(*row, b.2 as int);
                    }
                    spans.push(Span { lo: lo as i32, hi: hi as i32 });
                }
            }
            k = k + 1;
        }
        out.push(fuse(&spans));
        r = r + 1;
    }
    out
}

proof fn lemma_site_small(r: Row, x: int)
    requires
        r.ok(),
        small(x),
    ensures
        -2 * COORD_LIMIT <= site_of(r, x) <= 2 * COORD_LIMIT,
        -2 * COORD_LIMIT <= site_up(r, x) <= 2 * COORD_LIMIT,
{
    lemma_site_of(r, x);
}

/// The segments of the rows: the spaces between blockages, cut where regions begin and end, with
/// their ends on sites. Also the segments of each row.
pub fn find_segments(a: &Arch, blocks: &Vec<Vec<Blockage>>, groups: &Vec<Group>) -> (out: (Vec<Segment>, Vec<Vec<usize>>))
    requires
        a.wf(),
        a.rows@.len() * a.rows@[0].height <= COORD_LIMIT,
        blocks@.len() == a.rows@.len(),
        forall|r: int| 0 <= r < blocks@.len() ==> blocks_ok((#[trigger] blocks@[r])@),
        groups@.len() <= i32::MAX,
        forall|i: int, k: int| 0 <= i < groups@.len() && 0 <= k < groups@[i].rects@.len() ==>
            small((#[trigger] groups@[i].rects@[k]).0 as int) && small(groups@[i].rects@[k].2 as int),
    ensures
        (Cuts { segs: out.0@, ids: lists(out.1@) }) == segments_of(*a, blocks@, groups@),
        out.1@.len() == a.rows@.len(),
        forall|r: int, k: int| 0 <= r < out.1@.len() && 0 <= k < out.1@[r]@.len() ==> #[trigger] out.1@[r]@[k] < out.0@.len(),
        forall|k: int| 0 <= k < out.0@.len() ==> (#[trigger] out.0@[k]).row < a.rows@.len() && out.0@[k].id == k
            && -2 * COORD_LIMIT <= out.0@[k].min_x <= 2 * COORD_LIMIT && -2 * COORD_LIMIT <= out.0@[k].max_x <= 2 * COORD_LIMIT,
{
    let n: usize = a.rows.len();
    let mut segs: Vec<Segment> = Vec::new();
    let mut in_row: Vec<Vec<usize>> = Vec::new();
    let mut i: usize = 0;
    while i < n
        invariant
            n == a.rows@.len(),
            i <= n,
            in_row@.len() == i,
            forall|k: int| 0 <= k < i ==> (#[trigger] in_row@[k])@ == Seq::<usize>::empty(),
        decreases n - i,
    {
        let none: Vec<usize> = Vec::new();
        assert(none@ =~= Seq::empty());
        in_row.push(none);
        i = i + 1;
    }
    assert(lists(in_row@) =~= row_segments(*a, blocks@, 0).ids);
    assert(segs@ =~= row_segments(*a, blocks@, 0).segs);
    let mut r: usize = 0;
    while r < n
        invariant
            a.wf(),
            n == a.rows@.len(),
            blocks@.len() == n,
            forall|r: int| 0 <= r < blocks@.len() ==> blocks_ok((#[trigger] blocks@[r])@),
            r <= n,
            in_row@.len() == n,
            (Cuts { segs: segs@, ids: lists(in_row@) }).ok(n as int),
            (Cuts { segs: segs@, ids: lists(in_row@) }) == row_segments(*a, blocks@, r as int),
        decreases n - r,
    {
        row_spaces(a, r, &blocks[r], &mut segs, &mut in_row);
        r = r + 1;
    }
    let ghost c1 = Cuts { segs: segs@, ids: lists(in_row@) };
    let mut g: usize = 0;
    while g < groups.len()
        invariant
            a.wf(),
            a.rows@.len() * a.rows@[0].height <= COORD_LIMIT,
            n == a.rows@.len(),
            groups@.len() <= i32::MAX,
            forall|i: int, k: int| 0 <= i < groups@.len() && 0 <= k < groups@[i].rects@.len() ==>
                small((#[trigger] groups@[i].rects@[k]).0 as int) && small(groups@[i].rects@[k].2 as int),
            g <= groups@.len(),
            in_row@.len() == n,
            (Cuts { segs: segs@, ids: lists(in_row@) }).ok(n as int),
            (Cuts { segs: segs@, ids: lists(in_row@) }) == cut_groups(c1, *a, groups@, g as int),
        decreases groups@.len() - g,
    {
        let ghost c2 = Cuts { segs: segs@, ids: lists(in_row@) };
        let ivs = find_region_intervals(a, &groups[g]);
        let mut q: usize = 0;
        while q < n
            invariant
                n == a.rows@.len(),
                g < groups@.len() <= i32::MAX,
                ivs@.len() == n,
                forall|r: int| 0 <= r < ivs@.len() ==> (#[trigger] ivs@[r])@ == region_spans(*a, groups@[g as int], r),
                q <= n,
                in_row@.len() == n,
                (Cuts { segs: segs@, ids: lists(in_row@) }).ok(n as int),
                (Cuts { segs: segs@, ids: lists(in_row@) }) == cut_rows_by(c2, *a, groups@[g as int], q as int, g as int),
            decreases n - q,
        {
            cut_row_by(&mut segs, &mut in_row, q, &ivs[q], g as i32);
            q = q + 1;
        }
        g = g + 1;
    }
    let ghost c3 = Cuts { segs: segs@, ids: lists(in_row@) };
    let mut out: Vec<Segment> = Vec::new();
    let mut k: usize = 0;
    while k < segs.len()
        invariant
            a.wf(),
            n == a.rows@.len(),
            c3.ok(n as int),
            c3.segs == segs@,
            k <= segs@.len(),
            out@ == on_sites(*a, segs@).subrange(0, k as int),
            forall|j: int| 0 <= j < k ==> (#[trigger] out@[j]).row < n && out@[j].id == j
                && -2 * COORD_LIMIT <= out@[j].min_x <= 2 * COORD_LIMIT && -2 * COORD_LIMIT <= out@[j].max_x <= 2 * COORD_LIMIT,
        decreases segs@.len() - k,
    {
        let mut s: Segment = segs[k];
        assert(c3.segs[k as int].row < n && small(c3.segs[k as int].min_x as int));
        let row: &Row = &a.rows[s.row];
        assert(a.rows@[s.row as int].ok());
        proof {
            lemma_site_small(*row, s.min_x as int);
            lemma_site_small(*row, s.max_x as int);
        }
        let mut lo: i64 = site_at(row, s.min_x);
        if lo < s.min_x as i64 {
            lo = lo + row.site_spacing as i64;
        }
        let hi: i64 = site_at(row, s.max_x);
        s.min_x = lo as i32;
        s.max_x = hi as i32;
        out.push(s);
        k = k + 1;
        assert(out@ =~= on_sites(*a, segs@).subrange(0, k as int));
    }
    assert(out@ =~= on_sites(*a, segs@));
    proof {
        assert forall|r: int, k: int| 0 <= r < in_row@.len() && 0 <= k < in_row@[r]@.len() implies #[trigger] in_row@[r]@[k] < out@.len() by {
            assert(c3.ids[r][k] < c3.segs.len());
        }
    }
    (out, in_row)
}

} // verus!
