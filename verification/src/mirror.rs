//! Mirroring: placed cells are flipped about Y where that does not lengthen their nets.
//!
//! [`find_net_boxes`] says which nets count, [`nets_by_length`] puts them longest first and
//! [`find_mirror_candidates`] picks the cells to try. A caller then flips one candidate at a time
//! and measures its nets; [`Mirror::decide`] says whether the flip stays.

use vstd::prelude::*;
use crate::mirror_laws::law_lengthening_flip_lengthens;
use crate::regions::Box4;
use crate::sort::{in_order, sorted, Keyed};
use crate::text::{same_text, texts};

verus! {

/// Nets with more pins than this are ignored: shortening large nets, such as clocks, is no reason to
/// flip a cell.
pub const MIRROR_MAX_ITERM_COUNT: usize = 100;

/// What mirroring did.
#[derive(Debug)]
pub struct MirrorReport {
    pub mirrored: Vec<String>,
    /// Candidates whose flip would break an edge rule.
    pub edge_spacing_rejected: Vec<String>,
    pub candidates: usize,
}

/// The box of a net's pins and its half perimeter.
#[derive(Debug, Clone, Copy)]
pub struct NetBox {
    pub bbox: Box4,
    pub hpwl: i64,
    pub ignore: bool,
}

/// A pin of a net.
#[derive(Debug)]
pub struct NetPin {
    /// The instance and the pin, joined by a slash.
    pub iterm: String,
    pub is_core: bool,
    pub is_fixed: bool,
    /// The average location of its shapes.
    pub at: Option<(i32, i32)>,
}

/// A net as mirroring reads it.
#[derive(Debug)]
pub struct MirrorNet {
    pub sig_type: String,
    pub is_special: bool,
    pub pins: Vec<NetPin>,
    pub bbox: Box4,
    pub hpwl: i64,
}

// ── names ────────────────────────────────────────────────────────────────────────────────────

/// An orientation mirrored about Y.
pub open spec fn mirrored(o: Seq<char>) -> Seq<char> {
    if o == "R0"@ {
        "MY"@
    } else if o == "MX"@ {
        "R180"@
    } else if o == "MY"@ {
        "R0"@
    } else if o == "R180"@ {
        "MX"@
    } else if o == "R90"@ {
        "MXR90"@
    } else if o == "MXR90"@ {
        "R90"@
    } else if o == "R270"@ {
        "MYR90"@
    } else if o == "MYR90"@ {
        "R270"@
    } else {
        "R0"@
    }
}

/// One of the eight orientations.
pub open spec fn is_orient(o: Seq<char>) -> bool {
    o == "R0"@ || o == "MX"@ || o == "MY"@ || o == "R180"@ || o == "R90"@ || o == "MXR90"@ || o == "R270"@ || o == "MYR90"@
}

/// The orientation mirrored about Y.
pub fn orient_mirror_y(orient: &str) -> (r: &'static str)
    ensures
        r@ == mirrored(orient@),
{
    if same_text(orient, "R0") {
        "MY"
    } else if same_text(orient, "MX") {
        "R180"
    } else if same_text(orient, "MY") {
        "R0"
    } else if same_text(orient, "R180") {
        "MX"
    } else if same_text(orient, "R90") {
        "MXR90"
    } else if same_text(orient, "MXR90") {
        "R90"
    } else if same_text(orient, "R270") {
        "MYR90"
    } else if same_text(orient, "MYR90") {
        "R270"
    } else {
        "R0"
    }
}

/// Mirroring an orientation twice gives it back.
pub proof fn law_mirroring_twice_is_nothing(o: Seq<char>)
    requires
        is_orient(o),
    ensures
        is_orient(mirrored(o)),
        mirrored(mirrored(o)) == o,
{
    reveal_strlit("R0");
    reveal_strlit("MX");
    reveal_strlit("MY");
    reveal_strlit("R180");
    reveal_strlit("R90");
    reveal_strlit("MXR90");
    reveal_strlit("R270");
    reveal_strlit("MYR90");
    assert("R0"@[0] == 'R' && "MX"@[0] == 'M' && "MY"@[0] == 'M' && "MX"@[1] == 'X' && "MY"@[1] == 'Y');
    assert("R180"@[1] == '1' && "R270"@[1] == '2');
    assert("MXR90"@[1] == 'X' && "MYR90"@[1] == 'Y');
    assert("R0"@ != "MX"@ && "R0"@ != "MY"@ && "MX"@ != "MY"@);
    assert("R180"@ != "R270"@ && "MXR90"@ != "MYR90"@);
    assert("R0"@.len() == 2 && "MX"@.len() == 2 && "MY"@.len() == 2 && "R90"@.len() == 3 && "R180"@.len() == 4 && "R270"@.len() == 4);
    assert("MXR90"@.len() == 5 && "MYR90"@.len() == 5);
}

/// Whether `i` is where the last slash stands.
pub open spec fn is_last_slash(s: Seq<char>, i: int) -> bool {
    &&& 0 <= i < s.len()
    &&& s[i] == '/'
    &&& forall|j: int| i < j < s.len() ==> s[j] != '/'
}

/// The instance and the pin of a joined name: split at the last slash, since instance names have
/// slashes of their own. `None` without one.
pub fn split_iterm(it: &str) -> (r: Option<(&str, &str)>)
    ensures
        match r {
            None => forall|j: int| 0 <= j < it@.len() ==> it@[j] != '/',
            Some(p) => exists|i: int| #[trigger] is_last_slash(it@, i) && p.0@ == it@.subrange(0, i) && p.1@ == it@.subrange(i + 1, it@.len() as int),
        },
{
    let n: usize = it.unicode_len();
    let mut i: usize = n;
    while i > 0
        invariant
            n == it@.len(),
            i <= n,
            forall|j: int| i <= j < n ==> it@[j] != '/',
        decreases i,
    {
        i = i - 1;
        if it.get_char(i) == '/' {
            assert(is_last_slash(it@, i as int));
            return Some((it.substring_char(0, i), it.substring_char(i + 1, n)));
        }
    }
    None
}

/// The instance of a joined name, if it has one.
pub open spec fn inst_of(s: Seq<char>) -> Option<Seq<char>> {
    if exists|i: int| is_last_slash(s, i) {
        Some(s.subrange(0, choose|i: int| is_last_slash(s, i)))
    } else {
        None
    }
}

/// A name splits in one way, and joining the parts gives it back.
pub proof fn law_split_is_unique(s: Seq<char>, i: int)
    requires
        is_last_slash(s, i),
    ensures
        inst_of(s) == Some(s.subrange(0, i)),
        s == s.subrange(0, i) + seq!['/'] + s.subrange(i + 1, s.len() as int),
{
    let k = choose|k: int| is_last_slash(s, k);
    assert(k == i);
    assert(s =~= s.subrange(0, i) + seq!['/'] + s.subrange(i + 1, s.len() as int));
}

// ── nets ─────────────────────────────────────────────────────────────────────────────────────

/// Whether a net is a supply, special or large, and so does not count.
pub open spec fn is_ignored(n: MirrorNet) -> bool {
    n.sig_type@ == "POWER"@ || n.sig_type@ == "GROUND"@ || n.is_special || n.pins@.len() > MIRROR_MAX_ITERM_COUNT
}

/// The box of every net, with those marked that do not count.
pub fn find_net_boxes(nets: &Vec<MirrorNet>) -> (r: Vec<NetBox>)
    ensures
        r@.len() == nets@.len(),
        forall|k: int| 0 <= k < nets@.len() ==> (#[trigger] r@[k]).bbox == nets@[k].bbox && r@[k].hpwl == nets@[k].hpwl
            && r@[k].ignore == is_ignored(nets@[k]),
{
    let mut out: Vec<NetBox> = Vec::new();
    let mut k: usize = 0;
    while k < nets.len()
        invariant
            k <= nets@.len(),
            out@.len() == k,
            forall|j: int| 0 <= j < k ==> (#[trigger] out@[j]).bbox == nets@[j].bbox && out@[j].hpwl == nets@[j].hpwl
                && out@[j].ignore == is_ignored(nets@[j]),
        decreases nets@.len() - k,
    {
        let n = &nets[k];
        let ignore: bool = same_text(n.sig_type.as_str(), "POWER") || same_text(n.sig_type.as_str(), "GROUND") || n.is_special
            || n.pins.len() > MIRROR_MAX_ITERM_COUNT;
        out.push(NetBox { bbox: n.bbox, hpwl: n.hpwl, ignore });
        k = k + 1;
    }
    out
}

/// The nets' lengths, negated, with their positions.
pub open spec fn length_keys(boxes: Seq<NetBox>) -> Seq<Keyed> {
    Seq::new(boxes.len(), |k: int| Keyed { key: (-boxes[k].hpwl) as i64, pos: k as usize })
}

/// `order` are the nets longest first, equal lengths in their order.
pub open spec fn is_longest_first(boxes: Seq<NetBox>, order: Seq<usize>) -> bool {
    exists|ks: Seq<Keyed>| #[trigger] in_order(ks) && ks.to_multiset() == length_keys(boxes).to_multiset()
        && order == Seq::new(ks.len(), |k: int| ks[k].pos)
}

/// The nets longest first; of equal nets the earlier one first.
pub fn nets_by_length(boxes: &Vec<NetBox>) -> (r: Vec<usize>)
    requires
        forall|k: int| 0 <= k < boxes@.len() ==> (#[trigger] boxes@[k]).hpwl > i64::MIN,
    ensures
        is_longest_first(boxes@, r@),
        r@.len() == boxes@.len(),
        forall|k: int| 0 <= k < r@.len() ==> #[trigger] r@[k] < boxes@.len(),
{
    let mut keys: Vec<Keyed> = Vec::new();
    let mut k: usize = 0;
    while k < boxes.len()
        invariant
            k <= boxes@.len(),
            keys@ == length_keys(boxes@).subrange(0, k as int),
            forall|j: int| 0 <= j < boxes@.len() ==> (#[trigger] boxes@[j]).hpwl > i64::MIN,
        decreases boxes@.len() - k,
    {
        keys.push(Keyed { key: -boxes[k].hpwl, pos: k });
        k = k + 1;
        assert(keys@ =~= length_keys(boxes@).subrange(0, k as int));
    }
    assert(keys@ =~= length_keys(boxes@));
    let ks = sorted(&keys);
    proof {
        let p = |e: Keyed| e.pos < boxes@.len();
        crate::sort::lemma_rearranged(keys@, ks@, p);
        assert forall|j: int| 0 <= j < ks@.len() implies (#[trigger] ks@[j]).pos < boxes@.len() by {
            assert(p(ks@[j]));
        }
    }
    let mut out: Vec<usize> = Vec::new();
    let mut i: usize = 0;
    while i < ks.len()
        invariant
            i <= ks@.len(),
            out@ == Seq::new(i as nat, |k: int| ks@[k].pos),
        decreases ks@.len() - i,
    {
        out.push(ks[i].pos);
        i = i + 1;
        assert(out@ =~= Seq::new(i as nat, |k: int| ks@[k].pos));
    }
    assert(out@ =~= Seq::new(ks@.len(), |k: int| ks@[k].pos));
    out
}

// ── candidates ───────────────────────────────────────────────────────────────────────────────

/// Whether a point lies on one of the four lines of a box.
pub open spec fn on_edge(b: Box4, p: (i32, i32)) -> bool {
    p.0 == b.0 || p.0 == b.2 || p.1 == b.1 || p.1 == b.3
}

/// The instance that a pin makes a candidate: an unfixed core cell with the pin on the net's box.
pub open spec fn pin_candidate(p: NetPin, b: Box4) -> Option<Seq<char>> {
    if inst_of(p.iterm@) is Some && p.is_core && !p.is_fixed && p.at is Some && on_edge(b, p.at->Some_0) {
        inst_of(p.iterm@)
    } else {
        None
    }
}

/// The list with a name added at its end, unless the list has it.
pub open spec fn with_new(s: Seq<Seq<char>>, n: Option<Seq<char>>) -> Seq<Seq<char>> {
    match n {
        Some(x) => if s.contains(x) { s } else { s.push(x) },
        None => s,
    }
}

/// The candidates found before, and those of the first `n` pins of a net.
pub open spec fn pins_seen(pins: Seq<NetPin>, b: Box4, n: int, before: Seq<Seq<char>>) -> Seq<Seq<char>>
    decreases n,
{
    if n <= 0 { before } else { with_new(pins_seen(pins, b, n - 1, before), pin_candidate(pins[n - 1], b)) }
}

/// The candidates of the first `n` nets of an order.
pub open spec fn candidates_of(nets: Seq<MirrorNet>, boxes: Seq<NetBox>, order: Seq<usize>, n: int) -> Seq<Seq<char>>
    decreases n,
{
    if n <= 0 {
        Seq::empty()
    } else {
        let s = candidates_of(nets, boxes, order, n - 1);
        let k = order[n - 1] as int;
        if boxes[k].ignore { s } else { pins_seen(nets[k].pins@, boxes[k].bbox, nets[k].pins@.len() as int, s) }
    }
}

fn holds_name(v: &Vec<String>, name: &str) -> (r: bool)
    ensures
        r == texts(v@).contains(name@),
{
    let mut k: usize = 0;
    while k < v.len()
        invariant
            k <= v@.len(),
            forall|j: int| 0 <= j < k ==> (#[trigger] v@[j])@ != name@,
        decreases v@.len() - k,
    {
        if same_text(v[k].as_str(), name) {
            assert(texts(v@)[k as int] == name@);
            return true;
        }
        k = k + 1;
    }
    proof {
        if texts(v@).contains(name@) {
            let j = choose|j: int| 0 <= j < texts(v@).len() && texts(v@)[j] == name@;
            assert(v@[j]@ != name@);
        }
    }
    false
}

/// Over the nets in the given order, every unfixed core instance with a pin on its net's box; the
/// first occurrence counts.
pub fn find_mirror_candidates(nets: &Vec<MirrorNet>, order: &Vec<usize>, boxes: &Vec<NetBox>) -> (r: Vec<String>)
    requires
        boxes@.len() == nets@.len(),
        forall|k: int| 0 <= k < order@.len() ==> #[trigger] order@[k] < nets@.len(),
    ensures
        texts(r@) == candidates_of(nets@, boxes@, order@, order@.len() as int),
{
    let mut out: Vec<String> = Vec::new();
    let mut i: usize = 0;
    assert(texts(out@) =~= Seq::empty());
    while i < order.len()
        invariant
            boxes@.len() == nets@.len(),
            forall|k: int| 0 <= k < order@.len() ==> #[trigger] order@[k] < nets@.len(),
            i <= order@.len(),
            texts(out@) == candidates_of(nets@, boxes@, order@, i as int),
        decreases order@.len() - i,
    {
        let k: usize = order[i];
        if !boxes[k].ignore {
            let b = boxes[k].bbox;
            let pins = &nets[k].pins;
            let ghost before = texts(out@);
            let mut j: usize = 0;
            while j < pins.len()
                invariant
                    j <= pins@.len(),
                    texts(out@) == pins_seen(pins@, b, j as int, before),
                decreases pins@.len() - j,
            {
                let p = &pins[j];
                let ghost now = out@;
                if let Some((inst, _pin)) = split_iterm(p.iterm.as_str()) {
                    proof {
                        let s = choose|s: int| #[trigger] is_last_slash(p.iterm@, s) && inst@ == p.iterm@.subrange(0, s);
                        law_split_is_unique(p.iterm@, s);
                    }
                    if p.is_core && !p.is_fixed {
                        if let Some(at) = p.at {
                            if (at.0 == b.0 || at.0 == b.2 || at.1 == b.1 || at.1 == b.3) && !holds_name(&out, inst) {
                                out.push(inst.to_owned());
                                assert(texts(out@) =~= texts(now).push(inst@));
                            }
                        }
                    }
                } else {
                    assert(inst_of(p.iterm@) is None);
                }
                j = j + 1;
            }
        }
        i = i + 1;
    }
    out
}

/// No instance is a candidate twice.
pub proof fn law_candidates_are_distinct(nets: Seq<MirrorNet>, boxes: Seq<NetBox>, order: Seq<usize>, n: int)
    ensures
        candidates_of(nets, boxes, order, n).no_duplicates(),
    decreases n,
{
    if n > 0 {
        law_candidates_are_distinct(nets, boxes, order, n - 1);
        let k = order[n - 1] as int;
        if !boxes[k].ignore {
            lemma_pins_distinct(nets[k].pins@, boxes[k].bbox, nets[k].pins@.len() as int, candidates_of(nets, boxes, order, n - 1));
        }
    }
}

proof fn lemma_pins_distinct(pins: Seq<NetPin>, b: Box4, n: int, before: Seq<Seq<char>>)
    requires
        before.no_duplicates(),
    ensures
        pins_seen(pins, b, n, before).no_duplicates(),
    decreases n,
{
    if n > 0 {
        lemma_pins_distinct(pins, b, n - 1, before);
    }
}

// ── flips ────────────────────────────────────────────────────────────────────────────────────

/// The lengths of the nets on an instance's first `n` pins that count, a net once per pin on it.
pub open spec fn length_upto(boxes: Seq<NetBox>, pins: Seq<usize>, n: int) -> int
    decreases n,
{
    if n <= 0 {
        0
    } else {
        length_upto(boxes, pins, n - 1) + (if boxes[pins[n - 1] as int].ignore { 0 } else { boxes[pins[n - 1] as int].hpwl as int })
    }
}

/// The summed lengths of an instance's nets.
pub open spec fn length_of(boxes: Seq<NetBox>, pins: Seq<usize>) -> int {
    length_upto(boxes, pins, pins.len() as int)
}

/// Every net's length is bounded, so that sums over an instance's pins are exact.
pub open spec fn bounded(boxes: Seq<NetBox>) -> bool {
    forall|k: int| 0 <= k < boxes.len() ==> -0x2_0000_0000 <= (#[trigger] boxes[k]).hpwl <= 0x2_0000_0000
}

/// The summed lengths of an instance's nets, given the net of each of its pins.
pub fn inst_hpwl(boxes: &Vec<NetBox>, pins: &Vec<usize>) -> (r: i64)
    requires
        bounded(boxes@),
        pins@.len() <= 0x1000_0000,
        forall|k: int| 0 <= k < pins@.len() ==> #[trigger] pins@[k] < boxes@.len(),
    ensures
        r == length_of(boxes@, pins@),
{
    let mut sum: i64 = 0;
    let mut k: usize = 0;
    while k < pins.len()
        invariant
            bounded(boxes@),
            pins@.len() <= 0x1000_0000,
            forall|j: int| 0 <= j < pins@.len() ==> #[trigger] pins@[j] < boxes@.len(),
            k <= pins@.len(),
            sum == length_upto(boxes@, pins@, k as int),
            -0x2_0000_0000 * k <= sum <= 0x2_0000_0000 * k,
        decreases pins@.len() - k,
    {
        let b = boxes[pins[k]];
        if !b.ignore {
            assert(bounded(boxes@));
            sum = sum + b.hpwl;
        }
        k = k + 1;
    }
    sum
}

/// A net's box after the measurements of the first `n` pins: the last one of this net counts.
pub open spec fn measured(b: NetBox, net: int, pins: Seq<usize>, fresh: Seq<(Box4, i64)>, n: int) -> NetBox
    decreases n,
{
    if n <= 0 || b.ignore {
        b
    } else if pins[n - 1] == net {
        NetBox { bbox: fresh[n - 1].0, hpwl: fresh[n - 1].1, ignore: false }
    } else {
        measured(b, net, pins, fresh, n - 1)
    }
}

/// The boxes after an instance's nets were measured.
pub open spec fn remeasured(boxes: Seq<NetBox>, pins: Seq<usize>, fresh: Seq<(Box4, i64)>) -> Seq<NetBox> {
    Seq::new(boxes.len(), |k: int| measured(boxes[k], k, pins, fresh, pins.len() as int))
}

/// The state of mirroring: the nets' boxes, each instance's orientation, and what was done.
#[derive(Debug)]
pub struct Mirror {
    pub boxes: Vec<NetBox>,
    pub orients: Vec<String>,
    pub report: MirrorReport,
}

impl Mirror {
    /// Nothing done yet.
    pub fn new(boxes: Vec<NetBox>, orients: Vec<String>, candidates: usize) -> (r: Mirror)
        ensures
            r.boxes == boxes,
            r.orients == orients,
            r.report.mirrored@.len() == 0,
            r.report.edge_spacing_rejected@.len() == 0,
            r.report.candidates == candidates,
    {
        Mirror { boxes, orients, report: MirrorReport { mirrored: Vec::new(), edge_spacing_rejected: Vec::new(), candidates } }
    }

    /// The orientation to try for an instance.
    pub fn propose(&self, i: usize) -> (r: &'static str)
        requires
            i < self.orients@.len(),
        ensures
            r@ == mirrored(self.orients@[i as int]@),
    {
        orient_mirror_y(self.orients[i].as_str())
    }

    /// Record that an instance's flip would break an edge rule.
    pub fn reject(&mut self, inst: &String)
        ensures
            final(self).boxes == old(self).boxes,
            final(self).orients == old(self).orients,
            final(self).report.mirrored == old(self).report.mirrored,
            final(self).report.candidates == old(self).report.candidates,
            final(self).report.edge_spacing_rejected@ == old(self).report.edge_spacing_rejected@.push(*inst),
    {
        self.report.edge_spacing_rejected.push(inst.clone());
    }

    /// Whether a flip of instance `i` stays, given the net of each of its pins and that net's box and
    /// length measured after the flip: it stays unless it lengthens the instance's nets.
    pub fn decide(&mut self, i: usize, inst: &String, pins: &Vec<usize>, fresh: &Vec<(Box4, i64)>) -> (keep: bool)
        requires
            i < old(self).orients@.len(),
            fresh@.len() == pins@.len(),
            pins@.len() <= 0x1000_0000,
            forall|k: int| 0 <= k < pins@.len() ==> #[trigger] pins@[k] < old(self).boxes@.len(),
            bounded(old(self).boxes@),
            forall|k: int| 0 <= k < fresh@.len() ==> -0x2_0000_0000 <= (#[trigger] fresh@[k]).1 <= 0x2_0000_0000,
        ensures
            keep == (length_of(remeasured(old(self).boxes@, pins@, fresh@), pins@) <= length_of(old(self).boxes@, pins@)),
            forall|j: int| 0 <= j < pins@.len() && !(#[trigger] old(self).boxes@[pins@[j] as int]).ignore
                && (forall|k: int| 0 <= k < pins@.len() ==> (#[trigger] fresh@[k]).1 >= old(self).boxes@[pins@[k] as int].hpwl)
                && (forall|k: int| 0 <= k < pins@.len() && pins@[k] == pins@[j] ==> (#[trigger] fresh@[k]).1 > old(self).boxes@[pins@[j] as int].hpwl)
                ==> !keep,
            (forall|k: int| 0 <= k < pins@.len() ==> (#[trigger] fresh@[k]).1 <= old(self).boxes@[pins@[k] as int].hpwl) ==> keep,
            bounded(final(self).boxes@),
            final(self).report.edge_spacing_rejected == old(self).report.edge_spacing_rejected,
            final(self).report.candidates == old(self).report.candidates,
            keep ==> {
                &&& final(self).boxes@ == remeasured(old(self).boxes@, pins@, fresh@)
                &&& texts(final(self).orients@) == texts(old(self).orients@).update(i as int, mirrored(old(self).orients@[i as int]@))
                &&& final(self).report.mirrored@ == old(self).report.mirrored@.push(*inst)
            },
            !keep ==> {
                &&& final(self).boxes@ == old(self).boxes@
                &&& final(self).orients == old(self).orients
                &&& final(self).report.mirrored == old(self).report.mirrored
            },
    {
        let ghost b0 = self.boxes@;
        proof {
            assert forall|j: int| 0 <= j < pins@.len() && !(#[trigger] b0[pins@[j] as int]).ignore
                && (forall|k: int| 0 <= k < pins@.len() ==> (#[trigger] fresh@[k]).1 >= b0[pins@[k] as int].hpwl)
                && (forall|k: int| 0 <= k < pins@.len() && pins@[k] == pins@[j] ==> (#[trigger] fresh@[k]).1 > b0[pins@[j] as int].hpwl)
                implies length_of(remeasured(b0, pins@, fresh@), pins@) > length_of(b0, pins@) by {
                law_lengthening_flip_lengthens(b0, pins@, fresh@, j);
            }
            if pins@.len() > 0 {
                law_lengthening_flip_lengthens(b0, pins@, fresh@, 0);
            }
        }
        let before: i64 = inst_hpwl(&self.boxes, pins);
        let mut boxes: Vec<NetBox> = Vec::new();
        let mut k: usize = 0;
        while k < self.boxes.len()
            invariant
                k <= self.boxes@.len(),
                boxes@ == self.boxes@.subrange(0, k as int),
            decreases self.boxes@.len() - k,
        {
            boxes.push(self.boxes[k]);
            k = k + 1;
            assert(boxes@ =~= self.boxes@.subrange(0, k as int));
        }
        assert(boxes@ =~= b0);
        let mut p: usize = 0;
        while p < pins.len()
            invariant
                p <= pins@.len(),
                fresh@.len() == pins@.len(),
                boxes@.len() == b0.len(),
                bounded(boxes@),
                forall|j: int| 0 <= j < pins@.len() ==> #[trigger] pins@[j] < b0.len(),
                forall|j: int| 0 <= j < fresh@.len() ==> -0x2_0000_0000 <= (#[trigger] fresh@[j]).1 <= 0x2_0000_0000,
                forall|j: int| 0 <= j < b0.len() ==> #[trigger] boxes@[j] == measured(b0[j], j, pins@, fresh@, p as int),
                forall|j: int| 0 <= j < b0.len() ==> (#[trigger] boxes@[j]).ignore == b0[j].ignore,
            decreases pins@.len() - p,
        {
            let n: usize = pins[p];
            if !boxes[n].ignore {
                boxes.set(n, NetBox { bbox: fresh[p].0, hpwl: fresh[p].1, ignore: false });
            }
            p = p + 1;
        }
        assert(boxes@ =~= remeasured(b0, pins@, fresh@));
        let after: i64 = inst_hpwl(&boxes, pins);
        if after > before {
            return false;
        }
        let o: String = orient_mirror_y(self.orients[i].as_str()).to_owned();
        self.boxes = boxes;
        let ghost o0 = self.orients@;
        self.orients.set(i, o);
        assert(texts(self.orients@) =~= texts(o0).update(i as int, mirrored(o0[i as int]@)));
        self.report.mirrored.push(inst.clone());
        true
    }
}

} // verus!
