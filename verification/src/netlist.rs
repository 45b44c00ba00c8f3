//! The nodes and pins of the network that improving works on.

use vstd::prelude::*;
use crate::arith::{div_trunc, trunc_quot};
use crate::improve::{Kind, Node};
use crate::land::{all_below, lists_below, Pin};
use crate::orient::Orient;
use crate::rows::{small, COORD_LIMIT};
use crate::segments::lists;
use crate::text::same_text;

verus! {

/// An instance that becomes a cell, absolute: its name and master, its corner and its master's size.
#[derive(Debug)]
pub struct CellInput {
    pub name: String,
    pub master: String,
    pub x: i32,
    pub y: i32,
    pub width: i32,
    pub height: i32,
    /// Whether its placement is fixed, and whether its master is a block.
    pub fixed: bool,
    pub block: bool,
    pub placed: bool,
}

/// A terminal of the design, absolute.
#[derive(Debug)]
pub struct TermInput {
    pub name: String,
    pub has_net: bool,
    pub supply: bool,
    pub placed: bool,
    pub x_min: i32,
    pub y_min: i32,
    pub x_max: i32,
}

impl CellInput {
    /// The node of an instance: a block is fixed.
    pub open spec fn is_node(&self, id: int, x0: int, y0: int, n: Node) -> bool {
        &&& n.id == id
        &&& n.kind == Kind::Cell
        &&& n.name@ == self.name@
        &&& n.master@ == self.master@
        &&& n.left == self.x - x0
        &&& n.bottom == self.y - y0
        &&& n.width == self.width
        &&& n.height == self.height
        &&& n.fixed == (self.fixed || self.block)
        &&& n.group == -1
        &&& n.orient == Orient::R0
        &&& n.placed == self.placed
    }
}

impl TermInput {
    /// Whether a terminal becomes a node: it is placed and on a net that is no supply.
    pub open spec fn taken(&self) -> bool {
        self.has_net && !self.supply && self.placed
    }

    /// The node of a terminal: fixed and without height.
    pub open spec fn is_node(&self, id: int, x0: int, y0: int, n: Node) -> bool {
        &&& n.id == id
        &&& n.kind == Kind::Terminal
        &&& n.name@ == self.name@
        &&& n.master@ == Seq::<char>::empty()
        &&& n.left == self.x_min - x0
        &&& n.bottom == self.y_min - y0
        &&& n.width == self.x_max - self.x_min
        &&& n.height == 0
        &&& n.fixed
        &&& n.group == -1
        &&& n.orient == Orient::R0
        &&& n.placed
    }
}

/// The terminals among the first `n` that become nodes.
pub open spec fn terms_taken(v: Seq<TermInput>, n: int) -> Seq<TermInput>
    decreases n,
{
    if n <= 0 {
        Seq::empty()
    } else if v[n - 1].taken() {
        terms_taken(v, n - 1).push(v[n - 1])
    } else {
        terms_taken(v, n - 1)
    }
}

/// The nodes are those of the instances, then those of the terminals that are taken.
pub open spec fn is_network(cells: Seq<CellInput>, terms: Seq<TermInput>, x0: int, y0: int, nodes: Seq<Node>) -> bool {
    let t = terms_taken(terms, terms.len() as int);
    &&& nodes.len() == cells.len() + t.len()
    &&& forall|k: int| 0 <= k < cells.len() ==> cells[k].is_node(k, x0, y0, #[trigger] nodes[k])
    &&& forall|k: int| cells.len() <= k < nodes.len() ==> t[k - cells.len()].is_node(k, x0, y0, #[trigger] nodes[k])
}

/// The nodes of a design: its instances, then its placed terminals on nets that are no supply.
pub fn create_network(cells: &Vec<CellInput>, terms: &Vec<TermInput>, x0: i32, y0: i32) -> (nodes: Vec<Node>)
    requires
        forall|k: int| 0 <= k < cells@.len() ==> i32::MIN <= (#[trigger] cells@[k]).x - x0 <= i32::MAX && i32::MIN <= cells@[k].y - y0 <= i32::MAX,
        forall|k: int| 0 <= k < terms@.len() ==> i32::MIN <= (#[trigger] terms@[k]).x_min - x0 <= i32::MAX
            && i32::MIN <= terms@[k].y_min - y0 <= i32::MAX && i32::MIN <= terms@[k].x_max - terms@[k].x_min <= i32::MAX,
    ensures
        is_network(cells@, terms@, x0 as int, y0 as int, nodes@),
{
    let mut nodes: Vec<Node> = Vec::new();
    let mut k: usize = 0;
    while k < cells.len()
        invariant
            forall|k: int| 0 <= k < cells@.len() ==> i32::MIN <= (#[trigger] cells@[k]).x - x0 <= i32::MAX && i32::MIN <= cells@[k].y - y0 <= i32::MAX,
            k <= cells@.len(),
            nodes@.len() == k,
            forall|j: int| 0 <= j < k ==> cells@[j].is_node(j, x0 as int, y0 as int, #[trigger] nodes@[j]),
        decreases cells@.len() - k,
    {
        let c = &cells[k];
        nodes.push(Node {
            id: k,
            kind: Kind::Cell,
            name: c.name.clone(),
            master: c.master.clone(),
            left: c.x - x0,
            bottom: c.y - y0,
            width: c.width,
            height: c.height,
            fixed: c.fixed || c.block,
            group: -1,
            orient: Orient::R0,
            placed: c.placed,
        });
        k = k + 1;
    }
    let ghost m = cells@.len() as int;
    let mut i: usize = 0;
    while i < terms.len()
        invariant
            forall|k: int| 0 <= k < terms@.len() ==> i32::MIN <= (#[trigger] terms@[k]).x_min - x0 <= i32::MAX
                && i32::MIN <= terms@[k].y_min - y0 <= i32::MAX && i32::MIN <= terms@[k].x_max - terms@[k].x_min <= i32::MAX,
            i <= terms@.len(),
            m == cells@.len(),
            nodes@.len() == m + terms_taken(terms@, i as int).len(),
            forall|j: int| 0 <= j < m ==> cells@[j].is_node(j, x0 as int, y0 as int, #[trigger] nodes@[j]),
            forall|j: int| m <= j < nodes@.len() ==> terms_taken(terms@, i as int)[j - m].is_node(j, x0 as int, y0 as int, #[trigger] nodes@[j]),
        decreases terms@.len() - i,
    {
        let t = &terms[i];
        let ghost n0 = nodes@;
        if t.has_net && !t.supply && t.placed {
            let id: usize = nodes.len();
            let none: String = "".to_owned();
            proof {
                reveal_strlit("");
                assert(""@ =~= Seq::<char>::empty());
            }
            nodes.push(Node {
                id,
                kind: Kind::Terminal,
                name: t.name.clone(),
                master: none,
                left: t.x_min - x0,
                bottom: t.y_min - y0,
                width: t.x_max - t.x_min,
                height: 0,
                fixed: true,
                group: -1,
                orient: Orient::R0,
                placed: true,
            });
            proof {
                let (a, b) = (terms_taken(terms@, i as int), terms_taken(terms@, i + 1));
                assert forall|j: int| m <= j < nodes@.len() implies b[j - m].is_node(j, x0 as int, y0 as int, #[trigger] nodes@[j]) by {
                    if j < n0.len() {
                        assert(nodes@[j] == n0[j]);
                        assert(b[j - m] == a[j - m]);
                    }
                }
            }
        }
        i = i + 1;
    }
    nodes
}

// ── pins ─────────────────────────────────────────────────────────────────────────────────────

/// A net's connection to an instance: the box of the master's terminal, and the master's size.
#[derive(Debug)]
pub struct InstPin {
    pub inst: String,
    /// Whether the placer may place the instance's master.
    pub auto_placeable: bool,
    pub x_min: i32,
    pub y_min: i32,
    pub x_max: i32,
    pub y_max: i32,
    pub width: i32,
    pub height: i32,
}

/// A net's connection to a terminal of the design.
#[derive(Debug)]
pub struct TermPin {
    pub term: String,
    pub placed: bool,
}

/// A net of the design.
#[derive(Debug)]
pub struct NetInput {
    pub supply: bool,
    pub insts: Vec<InstPin>,
    pub terms: Vec<TermPin>,
}

/// The pins, the pins of each node, and the pins of each net.
#[derive(Debug)]
pub struct Wiring {
    pub pins: Vec<Pin>,
    pub node_pins: Vec<Vec<usize>>,
    pub edges: Vec<Vec<usize>>,
}

/// Pins, the pins of each node, the pins of each net, and those of the net at work.
#[verifier::ext_equal]
pub ghost struct Wires {
    pub pins: Seq<Pin>,
    pub node_pins: Seq<Seq<usize>>,
    pub edges: Seq<Seq<usize>>,
    pub open: Seq<usize>,
}

/// The last of the first `n` nodes of a kind with some name.
pub open spec fn named(nodes: Seq<Node>, kind: Kind, name: Seq<char>, n: int) -> Option<usize>
    decreases n,
{
    if n <= 0 {
        None
    } else if nodes[n - 1].kind == kind && nodes[n - 1].name@ == name {
        Some((n - 1) as usize)
    } else {
        named(nodes, kind, name, n - 1)
    }
}

impl InstPin {
    /// The offset of the terminal's centre from the master's.
    pub open spec fn offset(&self) -> (int, int) {
        (
            trunc_quot(self.x_min + self.x_max, 2) - trunc_quot(self.width as int, 2),
            trunc_quot(self.y_min + self.y_max, 2) - trunc_quot(self.height as int, 2),
        )
    }

    /// The box and the size are within the limit.
    pub open spec fn ok(&self) -> bool {
        &&& small(2 * self.x_min) && small(2 * self.x_max) && small(2 * self.y_min) && small(2 * self.y_max)
        &&& 0 <= self.width <= COORD_LIMIT && 0 <= self.height <= COORD_LIMIT
    }
}

impl Wires {
    /// The wires with a pin more, on the net at work.
    pub open spec fn with_pin(self, nd: usize, ox: int, oy: int) -> Wires {
        let p = self.pins.len() as usize;
        Wires {
            pins: self.pins.push(Pin { node: nd, edge: self.edges.len() as usize, ox: ox as i32, oy: oy as i32 }),
            node_pins: self.node_pins.update(nd as int, self.node_pins[nd as int].push(p)),
            edges: self.edges,
            open: self.open.push(p),
        }
    }

    /// The wires after a net's first `n` connections to instances.
    pub open spec fn with_insts(self, nodes: Seq<Node>, v: Seq<InstPin>, n: int) -> Wires
        decreases n,
    {
        if n <= 0 {
            self
        } else {
            let w = self.with_insts(nodes, v, n - 1);
            let c = v[n - 1];
            match named(nodes, Kind::Cell, c.inst@, nodes.len() as int) {
                Some(nd) => if c.auto_placeable { w.with_pin(nd, c.offset().0, c.offset().1) } else { w },
                None => w,
            }
        }
    }

    /// The wires after a net's first `n` connections to terminals.
    pub open spec fn with_terms(self, nodes: Seq<Node>, v: Seq<TermPin>, n: int) -> Wires
        decreases n,
    {
        if n <= 0 {
            self
        } else {
            let w = self.with_terms(nodes, v, n - 1);
            match named(nodes, Kind::Terminal, v[n - 1].term@, nodes.len() as int) {
                Some(nd) => if v[n - 1].placed { w.with_pin(nd, 0, 0) } else { w },
                None => w,
            }
        }
    }

    /// The wires after a net; a supply is passed over.
    pub open spec fn with_net(self, nodes: Seq<Node>, net: NetInput) -> Wires {
        if net.supply {
            self
        } else {
            let w = self.with_insts(nodes, net.insts@, net.insts@.len() as int).with_terms(nodes, net.terms@, net.terms@.len() as int);
            Wires { edges: w.edges.push(w.open), open: Seq::empty(), ..w }
        }
    }
}

/// The wires of the first `n` nets.
pub open spec fn wires_of(nodes: Seq<Node>, nets: Seq<NetInput>, n: int) -> Wires
    decreases n,
{
    if n <= 0 {
        Wires {
            pins: Seq::empty(),
            node_pins: Seq::new(nodes.len(), |k: int| Seq::<usize>::empty()),
            edges: Seq::empty(),
            open: Seq::empty(),
        }
    } else {
        wires_of(nodes, nets, n - 1).with_net(nodes, nets[n - 1])
    }
}

/// The last node of a kind with some name.
pub fn find_named(nodes: &Vec<Node>, kind: Kind, name: &str) -> (r: Option<usize>)
    ensures
        r == named(nodes@, kind, name@, nodes@.len() as int),
        r matches Some(nd) ==> nd < nodes@.len(),
{
    let mut i: usize = nodes.len();
    while i > 0
        invariant
            i <= nodes@.len(),
            named(nodes@, kind, name@, nodes@.len() as int) == named(nodes@, kind, name@, i as int),
        decreases i,
    {
        i = i - 1;
        if nodes[i].kind == kind && same_text(nodes[i].name.as_str(), name) {
            return Some(i);
        }
    }
    None
}

impl Wiring {
    pub open spec fn view(&self) -> Wires {
        Wires { pins: self.pins@, node_pins: lists(self.node_pins@), edges: lists(self.edges@), open: Seq::empty() }
    }

    /// The wiring of `n` nodes: its numbers are those of nodes, nets and pins there are.
    pub open spec fn wf(&self, n: int) -> bool {
        &&& self.node_pins@.len() == n
        &&& forall|k: int| 0 <= k < self.pins@.len() ==> (#[trigger] self.pins@[k]).node < n && self.pins@[k].edge < self.edges@.len()
            && small(self.pins@[k].ox as int) && small(self.pins@[k].oy as int)
        &&& lists_below(lists(self.node_pins@), self.pins@.len() as int)
        &&& lists_below(lists(self.edges@), self.pins@.len() as int)
    }

    /// The wiring while pins of the next net are added.
    spec fn partial(&self, n: int, open: Seq<usize>) -> bool {
        &&& self.node_pins@.len() == n
        &&& forall|k: int| 0 <= k < self.pins@.len() ==> (#[trigger] self.pins@[k]).node < n && self.pins@[k].edge <= self.edges@.len()
            && small(self.pins@[k].ox as int) && small(self.pins@[k].oy as int)
        &&& lists_below(lists(self.node_pins@), self.pins@.len() as int)
        &&& lists_below(lists(self.edges@), self.pins@.len() as int)
        &&& all_below(open, self.pins@.len() as int)
    }

    spec fn wires(&self, open: Seq<usize>) -> Wires {
        Wires { open, ..self@ }
    }

    fn add_pin(&mut self, open: &mut Vec<usize>, nd: usize, ox: i32, oy: i32)
        requires
            old(self).partial(old(self).node_pins@.len() as int, old(open)@),
            nd < old(self).node_pins@.len(),
            small(ox as int),
            small(oy as int),
        ensures
            final(self).node_pins@.len() == old(self).node_pins@.len(),
            final(self).edges == old(self).edges,
            final(self).partial(final(self).node_pins@.len() as int, final(open)@),
            final(self).wires(final(open)@) == old(self).wires(old(open)@).with_pin(nd, ox as int, oy as int),
    {
        let ghost w0 = *self;
        let ghost o0 = open@;
        let p: usize = self.pins.len();
        let e: usize = self.edges.len();
        self.node_pins[nd].push(p);
        open.push(p);
        self.pins.push(Pin { node: nd, edge: e, ox, oy });
        proof {
            let (a, b) = (lists(w0.node_pins@), lists(self.node_pins@));
            assert(b =~= a.update(nd as int, a[nd as int].push(p)));
            assert forall|k: int| 0 <= k < b.len() implies all_below(#[trigger] b[k], self.pins@.len() as int) by {
                assert(all_below(a[k], w0.pins@.len() as int));
            }
            assert forall|k: int| 0 <= k < lists(self.edges@).len() implies all_below(#[trigger] lists(self.edges@)[k], self.pins@.len() as int) by {
                assert(all_below(lists(w0.edges@)[k], w0.pins@.len() as int));
            }
            assert forall|k: int| 0 <= k < self.pins@.len() implies (#[trigger] self.pins@[k]).node < self.node_pins@.len() && self.pins@[k].edge <= self.edges@.len()
                && small(self.pins@[k].ox as int) && small(self.pins@[k].oy as int) by {
                if k < w0.pins@.len() {
                    assert(self.pins@[k] == w0.pins@[k]);
                }
            }
            assert(self.wires(open@) =~= w0.wires(o0).with_pin(nd, ox as int, oy as int));
        }
    }
}

/// The pins of a design's nets: of every net that is no supply, its connections to cells, at their offset
/// from the cell's centre, then its connections to placed terminals, at their centre.
pub fn build_pins(nets: &Vec<NetInput>, nodes: &Vec<Node>) -> (w: Wiring)
    requires
        forall|k: int, j: int| 0 <= k < nets@.len() && 0 <= j < nets@[k].insts@.len() ==> (#[trigger] nets@[k].insts@[j]).ok(),
    ensures
        w@ == wires_of(nodes@, nets@, nets@.len() as int),
        w.wf(nodes@.len() as int),
{
    let n: usize = nodes.len();
    let mut w = Wiring { pins: Vec::new(), node_pins: Vec::new(), edges: Vec::new() };
    let mut z: usize = 0;
    while z < n
        invariant
            z <= n,
            w.pins@.len() == 0,
            w.edges@.len() == 0,
            w.node_pins@.len() == z,
            forall|k: int| 0 <= k < z ==> (#[trigger] w.node_pins@[k])@ == Seq::<usize>::empty(),
        decreases n - z,
    {
        let none: Vec<usize> = Vec::new();
        assert(none@ =~= Seq::empty());
        w.node_pins.push(none);
        z = z + 1;
    }
    assert(w@ =~= wires_of(nodes@, nets@, 0));
    let mut k: usize = 0;
    while k < nets.len()
        invariant
            forall|k: int, j: int| 0 <= k < nets@.len() && 0 <= j < nets@[k].insts@.len() ==> (#[trigger] nets@[k].insts@[j]).ok(),
            n == nodes@.len(),
            k <= nets@.len(),
            w@ == wires_of(nodes@, nets@, k as int),
            w.wf(n as int),
        decreases nets@.len() - k,
    {
        let net = &nets[k];
        if !net.supply {
            let ghost w0 = w;
            let mut open: Vec<usize> = Vec::new();
            assert(w.wires(open@) =~= w0@);
            let mut j: usize = 0;
            while j < net.insts.len()
                invariant
                    forall|j: int| 0 <= j < net.insts@.len() ==> (#[trigger] net.insts@[j]).ok(),
                    n == nodes@.len(),
                    j <= net.insts@.len(),
                    w.edges == w0.edges,
                    w.node_pins@.len() == n,
                    w.partial(n as int, open@),
                    w.wires(open@) == w0@.with_insts(nodes@, net.insts@, j as int),
                decreases net.insts@.len() - j,
            {
                let c = &net.insts[j];
                assert(net.insts@[j as int].ok());
                if c.auto_placeable {
                    if let Some(nd) = find_named(nodes, Kind::Cell, c.inst.as_str()) {
                        let x: i64 = div_trunc(c.x_min as i64 + c.x_max as i64, 2) - (c.width / 2) as i64;
                        let y: i64 = div_trunc(c.y_min as i64 + c.y_max as i64, 2) - (c.height / 2) as i64;
                        w.add_pin(&mut open, nd, x as i32, y as i32);
                    }
                }
                j = j + 1;
            }
            let ghost w1 = w.wires(open@);
            let mut j: usize = 0;
            while j < net.terms.len()
                invariant
                    n == nodes@.len(),
                    j <= net.terms@.len(),
                    w.edges == w0.edges,
                    w.node_pins@.len() == n,
                    w.partial(n as int, open@),
                    w.wires(open@) == w1.with_terms(nodes@, net.terms@, j as int),
                decreases net.terms@.len() - j,
            {
                let t = &net.terms[j];
                if t.placed {
                    if let Some(nd) = find_named(nodes, Kind::Terminal, t.term.as_str()) {
                        w.add_pin(&mut open, nd, 0, 0);
                    }
                }
                j = j + 1;
            }
            let ghost before = w;
            let ghost last = open@;
            w.edges.push(open);
            proof {
                assert(lists(w.edges@) =~= lists(before.edges@).push(last));
                assert forall|e: int| 0 <= e < lists(w.edges@).len() implies all_below(#[trigger] lists(w.edges@)[e], w.pins@.len() as int) by {
                    if e < before.edges@.len() {
                        assert(all_below(lists(before.edges@)[e], w.pins@.len() as int));
                    }
                }
                assert(w@ =~= wires_of(nodes@, nets@, k + 1));
            }
        }
        k = k + 1;
    }
    w
}

} // verus!
