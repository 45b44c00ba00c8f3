use vyges_dpl::improve::{Arch, Row};
use vyges_dpl::lemon::{ListDigraph, NetworkSimplex};
use vyges_dpl::mirror::{orient_mirror_y, split_iterm};
use vyges_dpl::network::OuterShell;
use vyges_dpl::orient::Orient;
use vyges_dpl::permute::next_permutation;
use vyges_dpl::random::Mt19937;

fn row(bottom: i32) -> Row {
    Row { left: 0, num_sites: 10, site_spacing: 100, site_width: 100, sym_y: true, bottom, height: 1000, orient: Orient::R0 }
}

#[test]
fn find_closest_row_ties_go_down() {
    let a = Arch { rows: vec![row(0), row(1000), row(2000)], ..Default::default() };
    assert_eq!(a.find_closest_row(-50), 0);
    assert_eq!(a.find_closest_row(1000), 1);
    assert_eq!(a.find_closest_row(1500), 1, "a tie stays on the lower row");
    assert_eq!(a.find_closest_row(1501), 2);
    assert_eq!(a.find_closest_row(9000), 2);
}

#[test]
fn mt19937_seed_one_matches_the_reference() {
    let mut r = Mt19937::new(1);
    assert_eq!(r.next_u32(), 1791095845);
    assert_eq!(r.next_u32(), 4282876139, "the second draw");
}

#[test]
fn list_digraph_iterates_newest_first() {
    let mut g = ListDigraph::new();
    let (a, b, c) = (g.add_node(), g.add_node(), g.add_node());
    let e0 = g.add_arc(a, b);
    let e1 = g.add_arc(a, c);
    let e2 = g.add_arc(c, b);
    assert_eq!(g.nodes(), vec![c, b, a]);
    assert_eq!(g.arcs(), vec![e2, e1, e0]);
}

#[test]
fn a_unique_assignment_is_found() {
    let mut g = ListDigraph::new();
    let (c0, s0, c1, s1) = (g.add_node(), g.add_node(), g.add_node(), g.add_node());
    let (sup, dem) = (g.add_node(), g.add_node());
    let mut arcs = Vec::new();
    for (c, s) in [(c0, s0), (c1, s1)] {
        arcs.push((g.add_arc(sup, c), 0));
        arcs.push((g.add_arc(s, dem), 0));
    }
    let x00 = g.add_arc(c0, s0);
    let x01 = g.add_arc(c0, s1);
    let x10 = g.add_arc(c1, s0);
    let x11 = g.add_arc(c1, s1);
    let mut ns = NetworkSimplex::new(&g);
    for (a, c) in &arcs {
        ns.set_arc(*a, 0, 1, *c);
    }
    ns.set_arc(x00, 0, 1, 5);
    ns.set_arc(x01, 0, 1, 1);
    ns.set_arc(x10, 0, 1, 1);
    ns.set_arc(x11, 0, 1, 5);
    ns.st_supply(sup, dem, 2);
    assert!(ns.run());
    assert_eq!((ns.flow(x00), ns.flow(x01), ns.flow(x10), ns.flow(x11)), (0, 1, 1, 0));
}

#[test]
fn a_demand_that_no_arc_can_meet_is_refused() {
    let mut g = ListDigraph::new();
    let (a, b) = (g.add_node(), g.add_node());
    let e = g.add_arc(a, b);
    let mut ns = NetworkSimplex::new(&g);
    ns.set_arc(e, 0, 1, 3);
    ns.st_supply(a, b, 2);
    assert!(!ns.run());
}

#[test]
fn the_cheaper_of_two_ways_is_used_first() {
    // Two arcs side by side and three units: the cheap one is full, the dear one carries the rest.
    let mut g = ListDigraph::new();
    let (a, b) = (g.add_node(), g.add_node());
    let dear = g.add_arc(a, b);
    let cheap = g.add_arc(a, b);
    let mut ns = NetworkSimplex::new(&g);
    ns.set_arc(dear, 0, 5, 7);
    ns.set_arc(cheap, 0, 2, 1);
    ns.st_supply(a, b, 3);
    assert!(ns.run());
    assert_eq!((ns.flow(cheap), ns.flow(dear)), (2, 1));
}

#[test]
fn a_way_is_found_while_it_costs_less_than_a_missing_arc() {
    for (cost, found) in [((1 << 29) - 1, true), (1 << 29, false)] {
        let mut g = ListDigraph::new();
        let (a, b, c) = (g.add_node(), g.add_node(), g.add_node());
        let (e, f) = (g.add_arc(a, b), g.add_arc(b, c));
        let mut ns = NetworkSimplex::new(&g);
        ns.set_arc(e, 1, 4, cost);
        ns.set_arc(f, -2, 5, cost);
        ns.st_supply(a, c, 3);
        assert_eq!(ns.run(), found, "{cost}");
        if found {
            assert_eq!((ns.flow(e), ns.flow(f)), (3, 3));
        }
    }
}

#[test]
fn mirror_y_is_upstreams_table_and_an_involution() {
    for (a, b) in [("R0", "MY"), ("MX", "R180"), ("R90", "MXR90"), ("R270", "MYR90")] {
        assert_eq!(orient_mirror_y(a), b);
        assert_eq!(orient_mirror_y(b), a);
    }
}

#[test]
fn an_iterm_splits_on_its_last_slash() {
    assert_eq!(split_iterm("f0/_281_/A"), Some(("f0/_281_", "A")));
}

#[test]
fn an_iterm_without_a_slash_does_not_split() {
    assert_eq!(split_iterm("A"), None);
}

#[test]
fn a_cutout_surrounded_by_rows_is_inside_the_shell() {
    let rows = [(0, 0, 40, 10), (0, 30, 40, 40), (0, 10, 10, 30), (30, 10, 40, 30)];
    let s = OuterShell::build(&rows);
    assert!(s.intersects((15, 15, 25, 25)), "inside the filled hole");
    assert!(!s.intersects((50, 50, 60, 60)), "outside everything");
    assert!(s.intersects((40, 0, 50, 5)), "touching the shell's edge counts (inclusive)");
}

#[test]
fn a_notch_open_to_the_edge_is_not_filled() {
    let rows = [(0, 0, 40, 10), (0, 10, 10, 40), (30, 10, 40, 40)];
    let s = OuterShell::build(&rows);
    assert!(!s.intersects((15, 20, 25, 30)), "in the open notch");
}

#[test]
fn orders_come_one_after_the_other() {
    let mut v = vec![0, 1, 2];
    let mut seen = vec![v.clone()];
    while next_permutation(&mut v) {
        seen.push(v.clone());
    }
    assert_eq!(seen, vec![vec![0, 1, 2], vec![0, 2, 1], vec![1, 0, 2], vec![1, 2, 0], vec![2, 0, 1], vec![2, 1, 0]]);
}

#[test]
fn a_shuffle_rearranges_and_depends_on_the_seed_alone() {
    let mut a: Vec<usize> = (0..10).collect();
    let mut b: Vec<usize> = (0..10).collect();
    Mt19937::new(7).shuffle(&mut a);
    Mt19937::new(7).shuffle(&mut b);
    assert_eq!(a, b);
    a.sort();
    assert_eq!(a, (0..10).collect::<Vec<usize>>());
}

#[test]
fn orientations_have_names_and_two_flips_are_none() {
    for name in ["R0", "R90", "R180", "R270", "MY", "MYR90", "MX", "MXR90"] {
        let o = Orient::parse(name).unwrap();
        assert_eq!(o.name(), name);
        if let Some(f) = o.flip() {
            assert_eq!(f.flip(), Some(o));
        }
    }
    assert_eq!(Orient::parse("R45"), None);
}
